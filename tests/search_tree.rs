use std::cell::Cell;

use risk_search::game::{AttackGame, Move, PlayerMove, Turn};
use risk_search::map::TerritoryId;
use risk_search::player::PlayerId;
use risk_search::search::{MCTS, Selection, Strategy};
use risk_search::state::{calculate_nodes, ControlError, State, StrategyExt};
use risk_search::tree::{SearchError, Tree, OUTCOME_SCALE};

/// Plays the combat model: tries unvisited edges first, then the most
/// promising one; simulations return a fixed outcome.
struct Plain {
    root_game: AttackGame,
    game: AttackGame,
    outcome: u32,
    rounds: Cell<u64>,
    expansions: Cell<u32>,
}

impl Plain {
    fn new(root_game: AttackGame, outcome: u32) -> Plain {
        Plain {
            game: root_game.clone(),
            root_game,
            outcome,
            rounds: Cell::new(0),
            expansions: Cell::new(0),
        }
    }
}

impl Strategy for Plain {
    type Data = ();

    fn reset(&mut self) {
        self.game = self.root_game.clone();
    }

    fn move_root(&mut self, action: &Move) {
        self.root_game.make_move(*action);
        self.reset();
    }

    fn select(&mut self, tree: &Tree<()>, node: usize) -> Selection {
        let n = tree.node(node);
        if n.edge_count == 0 {
            return Selection::Terminal(self.outcome);
        }
        let mut best = 0;
        let mut best_visits = u32::MAX;
        for k in 0..n.edge_count {
            let visits = tree.edge(node, k).child.map_or(0, |c| tree.node(c).visits);
            if visits < best_visits {
                best = k;
                best_visits = visits;
            }
        }
        let action = tree.edge(node, best).action;
        if let Turn::Chance(_) = self.game.turn() {
            // Always the first outcome: the defender loses.
        }
        self.game.make_move(action);
        Selection::Selection(best as u32)
    }

    fn expand(&mut self, _tree: &Tree<()>, _node: usize) -> Vec<(Move, ())> {
        self.expansions.set(self.expansions.get() + 1);
        match self.game.turn() {
            Turn::Player => {
                let mut moves = Vec::new();
                self.game.gen_player_moves_into(&mut moves);
                moves.into_iter().map(|m| (Move::Player(m), ())).collect()
            }
            Turn::Chance(_) => {
                let mut outcomes = Vec::new();
                self.game.gen_chance_moves_into(&mut outcomes);
                outcomes.into_iter().map(|(a, d)| (Move::Chance(a, d), ())).collect()
            }
            Turn::PlaceTroops => Vec::new(),
        }
    }

    fn simulate(&mut self, _tree: &Tree<()>, _node: usize) -> u32 {
        self.rounds.set(self.rounds.get() + 1);
        self.outcome
    }

    fn flips_outcome(&self) -> bool {
        false
    }
}

impl StrategyExt for Plain {
    fn create_from(&self, root_game: AttackGame) -> Plain {
        Plain::new(root_game, self.outcome)
    }

    fn root_game(&self) -> &AttackGame {
        &self.root_game
    }

    fn evaluate(&self, _game: &AttackGame) -> u32 {
        OUTCOME_SCALE / 2
    }

    fn simulation_rounds(&self) -> u64 {
        self.rounds.get()
    }

    fn reset_simulation_rounds(&self) {
        self.rounds.set(0)
    }
}

fn board(owned: &[(TerritoryId, u32)], enemy: &[(TerritoryId, u32)]) -> (Vec<u32>, Vec<PlayerId>) {
    let mut troops = vec![1u32; 42];
    let mut occupiers = vec![PlayerId::P0; 42];
    for &(t, n) in owned {
        troops[t.index()] = n;
    }
    for &(t, n) in enemy {
        troops[t.index()] = n;
        occupiers[t.index()] = PlayerId::P1;
    }
    (troops, occupiers)
}

fn edges(actions: &[Move]) -> Vec<(Move, ())> {
    actions.iter().map(|&a| (a, ())).collect()
}

#[test]
fn backpropagation_without_flip() {
    let mut tree = Tree::new(edges(&[Move::Chance(0, 1), Move::Chance(1, 0)]));
    let child = tree.expand(0, 1, edges(&[Move::Chance(0, 0)]));
    assert_eq!(child, 1);
    assert_eq!(tree.edge(0, 1).child, Some(1));
    tree.backpropagate(&vec![0, 1], 300_000, false).unwrap();
    assert_eq!(tree.node(0).visits, 1);
    assert_eq!(tree.node(0).score, 300_000);
    assert_eq!(tree.node(1).score, 300_000);
}

#[test]
fn backpropagation_with_flip() {
    let mut tree = Tree::new(edges(&[Move::Chance(0, 1)]));
    let a = tree.expand(0, 0, edges(&[Move::Chance(1, 0)]));
    let b = tree.expand(a, 0, Vec::new());
    tree.backpropagate(&vec![0, a, b], 200_000, true).unwrap();
    assert_eq!(tree.node(b).score, 200_000);
    assert_eq!(tree.node(a).score, 800_000);
    assert_eq!(tree.node(0).score, 200_000);
    assert_eq!(tree.node(0).visits, 1);
}

#[test]
fn reuse_child_keeps_statistics() {
    let mut tree = Tree::new(edges(&[Move::Chance(0, 1), Move::Chance(1, 0)]));
    let child = tree.expand(0, 1, edges(&[Move::Chance(0, 0)]));
    tree.backpropagate(&vec![0, child], 700_000, false).unwrap();
    tree.backpropagate(&vec![0, child], 100_000, false).unwrap();
    let before = tree.node(child);
    assert!(tree.reuse_child(Move::Chance(1, 0)));
    assert_eq!(tree.root_index(), child);
    assert_eq!(tree.node(tree.root_index()), before);
    assert_eq!(before.visits, 2);
    assert_eq!(before.score, 800_000);
}

#[test]
fn unexpanded_action_gets_a_fresh_root() {
    let mut tree = Tree::new(edges(&[Move::Chance(0, 1), Move::Chance(1, 0)]));
    assert!(!tree.reuse_child(Move::Chance(0, 1)));
    assert!(!tree.reuse_child(Move::Chance(2, 0)));
    tree.replace_root(edges(&[Move::Chance(0, 2)]));
    assert_eq!(tree.root_index(), 1);
    assert_eq!(tree.node(1).visits, 0);
    assert_eq!(tree.node(1).edge_count, 1);
}

#[test]
fn engine_counts_visits_and_reuses_subtrees() {
    let (troops, occupiers) = board(&[(TerritoryId::Alaska, 5)], &[(TerritoryId::Kamchatka, 1)]);
    let mut game = AttackGame::new();
    game.set_state(troops, occupiers, 0);
    let mut mcts = MCTS::new(Plain::new(game, 600_000));
    for _ in 0..10 {
        mcts.add_node().unwrap();
    }
    let root = mcts.tree().root_index();
    assert_eq!(mcts.tree().node(root).visits, 10);
    assert_eq!(mcts.root().visits, 10);
    let (best, visits) = mcts.most_visits().unwrap();
    let attack = Move::Player(PlayerMove {
        origin: TerritoryId::Alaska,
        dest: TerritoryId::Kamchatka,
    });
    assert_eq!(best, attack);
    assert_eq!(visits, 10);
    let child = mcts.tree().edge(root, 0).child.unwrap();
    let kept = mcts.tree().node(child);
    mcts.move_root(attack);
    assert_eq!(mcts.tree().root_index(), child);
    assert_eq!(mcts.tree().node(child), kept);
}

#[test]
fn engine_rejects_outcomes_above_scale() {
    let (troops, occupiers) = board(&[(TerritoryId::Alaska, 5)], &[(TerritoryId::Kamchatka, 1)]);
    let mut game = AttackGame::new();
    game.set_state(troops, occupiers, 0);
    let mut mcts = MCTS::new(Plain::new(game, OUTCOME_SCALE + 1));
    assert_eq!(mcts.add_node(), Err(SearchError::OutcomeOutOfRange));
}

#[test]
fn node_budget_formula() {
    let (troops, occupiers) = board(&[(TerritoryId::Alaska, 5)], &[(TerritoryId::Kamchatka, 1)]);
    let mut game = AttackGame::new();
    game.set_state(troops, occupiers, 0);
    // Two players, 41 territories held, one left to conquer.
    assert_eq!(calculate_nodes(&game), 25);
    let mut occupiers = vec![PlayerId::P1; 42];
    occupiers[0] = PlayerId::P0;
    occupiers[1] = PlayerId::P2;
    occupiers[2] = PlayerId::P3;
    game.set_state(vec![1; 42], occupiers, 0);
    // Four players, one territory held.
    assert_eq!(calculate_nodes(&game), 50);
}

#[test]
fn single_attack_is_chosen() {
    // One friendly territory with 5 troops next to one enemy territory with
    // 1 troop; every other territory around is friendly.
    let mut troops = vec![1u32; 42];
    let mut occupiers = vec![PlayerId::P0; 42];
    troops[TerritoryId::Alaska.index()] = 5;
    occupiers[TerritoryId::Kamchatka.index()] = PlayerId::P1;
    for t in [
        TerritoryId::Irkutsk,
        TerritoryId::Japan,
        TerritoryId::Mongolia,
        TerritoryId::Yakutsk,
    ] {
        occupiers[t.index()] = PlayerId::P1;
        troops[t.index()] = 1;
    }
    let mut state = State::new(Plain::new(AttackGame::new(), 900_000));
    state.reset(troops, occupiers, 0);
    let attack = PlayerMove {
        origin: TerritoryId::Alaska,
        dest: TerritoryId::Kamchatka,
    };
    let root = state.mcts().tree().root_index();
    assert_eq!(state.mcts().tree().node(root).edge_count, 1);
    assert_eq!(state.calculate_move(50), Ok(Move::Player(attack)));
    let child = state.mcts().tree().edge(root, 0).child.unwrap();
    assert!(state.mcts().tree().node(child).visits >= 40);
    let (m, repeat) = state.get_move().unwrap().expect("an attack");
    assert_eq!(m, attack);
    assert!(repeat);
}

#[test]
fn no_move_without_attacks() {
    let (troops, occupiers) = board(&[], &[]);
    let mut state = State::new(Plain::new(AttackGame::new(), 900_000));
    state.reset(troops, occupiers, 0);
    let root = state.mcts().tree().root_index();
    assert_eq!(state.mcts().tree().node(root).edge_count, 0);
    let expansions = state.mcts().strategy().expansions.get();
    assert_eq!(state.get_move(), Ok(None));
    assert_eq!(state.mcts().strategy().expansions.get(), expansions);
    assert_eq!(state.mcts().tree().node(root).visits, 0);
}

#[test]
fn abstains_when_everything_looks_worse() {
    let mut troops = vec![1u32; 42];
    let mut occupiers = vec![PlayerId::P1; 42];
    troops[TerritoryId::Alaska.index()] = 5;
    occupiers[TerritoryId::Alaska.index()] = PlayerId::P0;
    let mut state = State::new(Plain::new(AttackGame::new(), 100_000));
    state.reset(troops, occupiers, 0);
    assert_eq!(state.get_move(), Ok(None));
}

#[test]
fn decision_follows_the_evaluation() {
    let mut troops = vec![1u32; 42];
    let mut occupiers = vec![PlayerId::P1; 42];
    troops[TerritoryId::Alaska.index()] = 5;
    occupiers[TerritoryId::Alaska.index()] = PlayerId::P0;
    let mut state = State::new(Plain::new(AttackGame::new(), 600_000));
    state.reset(troops, occupiers, 0);
    let root = state.mcts().tree().root_index();
    let count = state.mcts().tree().node(root).edge_count;
    assert_eq!(count, 3);
    let mov = state.calculate_move(10).unwrap();
    let m = match mov {
        Move::Player(m) => m,
        other => panic!("{other:?}"),
    };
    // Every searched edge scores 0.6 per visit.
    assert_eq!(state.decide(mov, 500_000), Some((m, false)));
    assert_eq!(state.decide(mov, 700_000), None);
    assert_eq!(state.decide(Move::Chance(0, 1), 500_000), None);
}

#[test]
fn no_simulation_no_move() {
    let mut troops = vec![1u32; 42];
    let mut occupiers = vec![PlayerId::P1; 42];
    troops[TerritoryId::Alaska.index()] = 5;
    occupiers[TerritoryId::Alaska.index()] = PlayerId::P0;
    let mut state = State::new(Plain::new(AttackGame::new(), 600_000));
    state.reset(troops, occupiers, 0);
    assert_eq!(state.calculate_move(0), Err(ControlError::NoMoveSearched));
    state.calculate_move(3).unwrap();
    let root = state.mcts().tree().root_index();
    let before = state.mcts().tree().node(root);
    assert!(state.calculate_move(0).is_ok());
    assert_eq!(state.mcts().tree().node(root), before);
}

#[test]
fn make_moves_reuses_the_searched_outcome() {
    let mut troops = vec![1u32; 42];
    let mut occupiers = vec![PlayerId::P0; 42];
    troops[TerritoryId::Alaska.index()] = 5;
    occupiers[TerritoryId::Kamchatka.index()] = PlayerId::P1;
    for t in [TerritoryId::Irkutsk, TerritoryId::Japan, TerritoryId::Mongolia, TerritoryId::Yakutsk] {
        occupiers[t.index()] = PlayerId::P1;
    }
    let mut state = State::new(Plain::new(AttackGame::new(), 600_000));
    state.reset(troops, occupiers, 0);
    state.calculate_move(20).unwrap();
    let attack = PlayerMove {
        origin: TerritoryId::Alaska,
        dest: TerritoryId::Kamchatka,
    };
    let tree = state.mcts().tree();
    let after_attack = tree.edge(tree.root_index(), 0).child.unwrap();
    let dice = tree.edge(after_attack, 0);
    let (outcome, reached) = match dice.action {
        Move::Chance(a, d) => ((a, d), dice.child.unwrap()),
        other => panic!("{other:?}"),
    };
    let kept = tree.node(reached);
    state.make_moves(attack, outcome);
    assert_eq!(state.mcts().tree().root_index(), reached);
    assert_eq!(state.mcts().root(), kept);
}
