use vstd::prelude::*;

use crate::game::Move;

verus! {

/// Outcomes of simulations are integers from 0 (a sure loss) to
/// `OUTCOME_SCALE` (a sure win).
pub const OUTCOME_SCALE: u32 = 1_000_000;

/// Statistics of a node and where its edges lie in the arena.
#[derive(Clone, Copy, PartialEq, Eq, Structural, Debug)]
pub struct Node {
    /// Simulations that passed through the node.
    pub visits: u32,
    /// Sum of their outcomes, from the perspective of the parent.
    pub score: u64,
    pub first_edge: usize,
    pub edge_count: usize,
}

/// The outcome that a node `depth` levels above the simulated one is
/// credited with: the outcome itself, or with `flip` its complement at every
/// other level.
pub open spec fn level_outcome(outcome: int, flip: bool, depth: int) -> int {
    if flip && depth % 2 == 1 {
        OUTCOME_SCALE - outcome
    } else {
        outcome
    }
}

/// Why a simulation could not be added to the tree.
#[derive(Clone, Copy, PartialEq, Eq, Structural, Debug)]
pub enum SearchError {
    /// The strategy selected an edge that the node does not have.
    SelectionOutOfRange,
    /// The strategy reported an outcome above `OUTCOME_SCALE`.
    OutcomeOutOfRange,
    /// A node on the path cannot count another visit.
    VisitsExhausted,
}

/// An action out of a node, what the strategy attached to it, and the node it
/// leads to once expanded.
pub struct Edge<D> {
    pub action: Move,
    pub data: D,
    pub child: Option<usize>,
}

/// A search tree kept in an arena: nodes and edges are never freed while the
/// tree lives; subtrees left behind by re-rooting simply become unreachable.
pub struct Tree<D> {
    nodes: Vec<Node>,
    edges: Vec<Edge<D>>,
    root: usize,
}

impl<D> Tree<D> {
    /// The nodes of the arena, by index.
    pub closed spec fn nodes(&self) -> Seq<Node> {
        self.nodes@
    }

    /// The edges of the arena, by index.
    pub closed spec fn edges(&self) -> Seq<Edge<D>> {
        self.edges@
    }

    /// The index of the root node.
    pub closed spec fn root(&self) -> int {
        self.root as int
    }

    /// Edge `k` of node `n`.
    pub open spec fn edge_of(&self, n: int, k: int) -> Edge<D> {
        self.edges()[self.nodes()[n].first_edge + k]
    }

    /// Edge `k` of node `n` stays in the arena and leads to a later node.
    pub open spec fn edge_ok(&self, n: int, k: int) -> bool {
        &&& self.nodes()[n].first_edge + k < self.edges().len()
        &&& (self.edge_of(n, k).child is Some ==> n < self.edge_of(n, k).child->0 < self.nodes().len())
    }

    /// Node `n`'s edges lie in the arena, each leads to a later node, and its
    /// score is at most a win per visit.
    pub open spec fn node_ok(&self, n: int) -> bool {
        &&& self.nodes()[n].first_edge + self.nodes()[n].edge_count <= self.edges().len()
        &&& self.nodes()[n].score <= self.nodes()[n].visits * OUTCOME_SCALE
        &&& forall|k: int| 0 <= k < self.nodes()[n].edge_count ==> #[trigger] self.edge_ok(n, k)
    }

    /// Node `m`'s edges lie before those of the later node `m2`.
    pub open spec fn ranges_ordered(&self, m: int, m2: int) -> bool {
        self.nodes()[m].first_edge + self.nodes()[m].edge_count <= self.nodes()[m2].first_edge
    }

    /// Edges `k` of node `n` and `k2` of node `n2` lead to the same node
    /// only if they are the same edge.
    pub open spec fn children_distinct(&self, n: int, k: int, n2: int, k2: int) -> bool {
        (0 <= n < self.nodes().len() && 0 <= k < self.nodes()[n].edge_count && 0 <= n2 < self.nodes().len() && 0 <= k2
            < self.nodes()[n2].edge_count && self.edge_of(n, k).child is Some && self.edge_of(n, k).child == self.edge_of(
            n2,
            k2,
        ).child) ==> n == n2 && k == k2
    }

    pub open spec fn wf(&self) -> bool {
        &&& 0 <= self.root() < self.nodes().len()
        &&& forall|n: int| 0 <= n < self.nodes().len() ==> #[trigger] self.node_ok(n)
        &&& forall|m: int, m2: int| 0 <= m < m2 < self.nodes().len() ==> #[trigger] self.ranges_ordered(m, m2)
        &&& forall|n: int, k: int, n2: int, k2: int| #[trigger] self.children_distinct(n, k, n2, k2)
    }

    /// A tree whose root has not been visited and has one unexpanded edge per
    /// entry of `edges`, in order.
    pub fn new(edges: Vec<(Move, D)>) -> (r: Tree<D>)
        ensures
            r.wf(),
            r.nodes().len() == 1,
            r.root() == 0,
            r.nodes()[0].visits == 0,
            r.nodes()[0].score == 0,
            r.nodes()[0].edge_count == edges@.len(),
            forall|k: int| 0 <= k < edges@.len() ==> (#[trigger] r.edge_of(0, k)).action == edges@[k].0
                && r.edge_of(0, k).child is None,
    {
        let mut tree = Tree { nodes: Vec::new(), edges: Vec::new(), root: 0 };
        let (first_edge, edge_count) = tree.push_edges(edges);
        tree.nodes.push(Node { visits: 0, score: 0, first_edge, edge_count });
        assert(tree.node_ok(0));
        tree
    }

    /// Appends unexpanded edges for `new_edges` to the arena.
    fn push_edges(&mut self, new_edges: Vec<(Move, D)>) -> (r: (usize, usize))
        ensures
            r.0 == old(self).edges().len(),
            r.1 == new_edges@.len(),
            final(self).edges().len() == old(self).edges().len() + new_edges@.len(),
            final(self).nodes() == old(self).nodes(),
            final(self).root() == old(self).root(),
            forall|e: int| 0 <= e < old(self).edges().len() ==> #[trigger] final(self).edges()[e] == old(self).edges()[e],
            forall|k: int| 0 <= k < new_edges@.len() ==> (#[trigger] final(self).edges()[r.0 + k]).action
                == new_edges@[k].0 && final(self).edges()[r.0 + k].child is None,
    {
        let first = self.edges.len();
        let count = new_edges.len();
        let mut new_edges = new_edges;
        let ghost all = new_edges@;
        let mut taken: Vec<(Move, D)> = Vec::new();
        // Reverse so that popping hands the edges out in their original order.
        while new_edges.len() > 0
            invariant
                new_edges@.len() + taken@.len() == all.len(),
                forall|k: int| 0 <= k < new_edges@.len() ==> #[trigger] new_edges@[k] == all[k],
                forall|k: int| 0 <= k < taken@.len() ==> #[trigger] taken@[k] == all[all.len() - 1 - k],
            decreases new_edges@.len(),
        {
            let item = new_edges.pop().unwrap();
            taken.push(item);
        }
        while taken.len() > 0
            invariant
                first == old(self).edges().len(),
                count == all.len(),
                taken@.len() <= all.len(),
                self.edges@.len() + taken@.len() == first + all.len(),
                self.nodes@ == old(self).nodes(),
                self.root == old(self).root(),
                forall|e: int| 0 <= e < first ==> #[trigger] self.edges@[e] == old(self).edges()[e],
                forall|k: int| 0 <= k < taken@.len() ==> #[trigger] taken@[k] == all[all.len() - 1 - k],
                forall|k: int| 0 <= k < self.edges@.len() - first ==> (#[trigger] self.edges@[first + k]).action == all[k].0
                    && self.edges@[first + k].child is None,
            decreases taken@.len(),
        {
            let (action, data) = taken.pop().unwrap();
            let ghost prev = self.edges@;
            self.edges.push(Edge { action, data, child: None });
            assert forall|e: int| 0 <= e < first implies #[trigger] self.edges@[e] == old(self).edges()[e] by {
                assert(prev[e] == old(self).edges()[e]);
            }
            assert forall|k: int| 0 <= k < self.edges@.len() - first implies (#[trigger] self.edges@[first + k]).action == all[k].0
                && self.edges@[first + k].child is None by {
                if k < prev.len() - first {
                    assert(prev[first + k] == self.edges@[first + k]);
                }
            }
        }
        (first, count)
    }

    /// Index of the root node.
    pub fn root_index(&self) -> (r: usize)
        ensures
            r == self.root(),
    {
        self.root
    }

    /// Number of nodes in the arena.
    pub fn node_count(&self) -> (r: usize)
        ensures
            r == self.nodes().len(),
    {
        self.nodes.len()
    }

    /// Statistics of node `n`.
    pub fn node(&self, n: usize) -> (r: Node)
        requires
            n < self.nodes().len(),
        ensures
            r == self.nodes()[n as int],
    {
        self.nodes[n]
    }

    /// Edge `k` of node `n`.
    pub fn edge(&self, n: usize, k: usize) -> (r: &Edge<D>)
        requires
            self.wf(),
            n < self.nodes().len(),
            k < self.nodes()[n as int].edge_count,
        ensures
            *r == self.edge_of(n as int, k as int),
    {
        assert(self.node_ok(n as int));
        assert(self.edge_ok(n as int, k as int));
        let _len = self.edges.len();
        &self.edges[self.nodes[n].first_edge + k]
    }

    /// Expands edge `k` of node `n` into a new, unvisited node with one
    /// unexpanded edge per entry of `new_edges`; returns the new node's index.
    pub fn expand(&mut self, n: usize, k: usize, new_edges: Vec<(Move, D)>) -> (r: usize)
        requires
            old(self).wf(),
            n < old(self).nodes().len(),
            k < old(self).nodes()[n as int].edge_count,
            old(self).edge_of(n as int, k as int).child is None,
        ensures
            final(self).wf(),
            r == old(self).nodes().len(),
            final(self).nodes() == old(self).nodes().push(Node { visits: 0, score: 0, first_edge: final(self).nodes()[r as int].first_edge, edge_count: new_edges@.len() as usize }),
            final(self).root() == old(self).root(),
            final(self).edge_of(n as int, k as int).child == Some(r),
            final(self).edge_of(n as int, k as int).action == old(self).edge_of(n as int, k as int).action,
            forall|m: int, j: int| 0 <= m < old(self).nodes().len() && 0 <= j < old(self).nodes()[m].edge_count && !(m == n && j == k)
                ==> #[trigger] final(self).edge_of(m, j) == old(self).edge_of(m, j),
            forall|j: int| 0 <= j < new_edges@.len() ==> (#[trigger] final(self).edge_of(r as int, j)).action == new_edges@[j].0
                && final(self).edge_of(r as int, j).child is None,
    {
        assert(self.node_ok(n as int));
        assert(self.edge_ok(n as int, k as int));
        let ghost before = *self;
        let index = self.nodes.len();
        let (first_edge, edge_count) = self.push_edges(new_edges);
        self.nodes.push(Node { visits: 0, score: 0, first_edge, edge_count });
        let e = self.nodes[n].first_edge + k;
        let ghost mid = self.edges@;
        self.edges[e].child = Some(index);
        assert forall|m: int| 0 <= m < self.nodes().len() implies #[trigger] self.node_ok(m) by {
            if m < index {
                assert(before.node_ok(m));
                assert forall|j: int| 0 <= j < self.nodes()[m].edge_count implies #[trigger] self.edge_ok(m, j) by {
                    assert(before.edge_ok(m, j));
                }
            } else {
                assert forall|j: int| 0 <= j < self.nodes()[m].edge_count implies #[trigger] self.edge_ok(m, j) by {
                    assert(mid[first_edge + j].child is None);
                }
            }
        }
        assert forall|m: int, j: int| 0 <= m < before.nodes().len() && 0 <= j < before.nodes()[m].edge_count && !(m == n && j == k)
            implies #[trigger] self.edge_of(m, j) == before.edge_of(m, j) by {
            assert(before.node_ok(m));
            assert(before.edge_ok(m, j));
            if m < n {
                assert(before.ranges_ordered(m, n as int));
            } else if m > n {
                assert(before.ranges_ordered(n as int, m));
            }
        }
        assert forall|m: int, m2: int| 0 <= m < m2 < self.nodes().len() implies #[trigger] self.ranges_ordered(m, m2) by {
            if m2 < index {
                assert(before.ranges_ordered(m, m2));
            } else {
                assert(before.node_ok(m));
            }
        }
        assert forall|a: int, b: int, a2: int, b2: int| #[trigger] self.children_distinct(a, b, a2, b2) by {
            if 0 <= a < self.nodes().len() && 0 <= b < self.nodes()[a].edge_count && 0 <= a2 < self.nodes().len() && 0 <= b2
                < self.nodes()[a2].edge_count && self.edge_of(a, b).child is Some && self.edge_of(a, b).child == self.edge_of(
                a2,
                b2,
            ).child {
                if a == index {
                    assert(mid[first_edge + b].child is None);
                } else if a2 == index {
                    assert(mid[first_edge + b2].child is None);
                } else if a == n && b == k {
                    if !(a2 == n && b2 == k) {
                        assert(before.node_ok(a2));
                        assert(before.edge_ok(a2, b2));
                    }
                } else if a2 == n && b2 == k {
                    assert(before.node_ok(a));
                    assert(before.edge_ok(a, b));
                } else {
                    assert(before.children_distinct(a, b, a2, b2));
                }
            }
        }
        index
    }

    /// Adds one visit and the outcome of a simulation to every node of `path`,
    /// a path from the root down. The outcome is `outcome` at the last node;
    /// with `flip`, it alternates with its complement level by level above.
    /// Fails, changing nothing, when a node of the path cannot count another visit.
    pub fn backpropagate(&mut self, path: &Vec<usize>, outcome: u32, flip: bool) -> (r: Result<(), SearchError>)
        requires
            old(self).wf(),
            outcome <= OUTCOME_SCALE,
            forall|i: int| 0 <= i < path@.len() ==> #[trigger] path@[i] < old(self).nodes().len(),
            forall|i: int, j: int| 0 <= i < j < path@.len() ==> #[trigger] path@[i] < #[trigger] path@[j],
        ensures
            final(self).wf(),
            final(self).edges() == old(self).edges(),
            final(self).root() == old(self).root(),
            final(self).nodes().len() == old(self).nodes().len(),
            r is Err <==> exists|i: int| 0 <= i < path@.len() && old(self).nodes()[#[trigger] path@[i] as int].visits == u32::MAX,
            r is Err ==> final(self).nodes() == old(self).nodes(),
            r is Ok ==> forall|i: int| 0 <= i < path@.len() ==> {
                let n = #[trigger] path@[i] as int;
                &&& final(self).nodes()[n].visits == old(self).nodes()[n].visits + 1
                &&& final(self).nodes()[n].score == old(self).nodes()[n].score + level_outcome(
                    outcome as int,
                    flip,
                    path@.len() - 1 - i,
                )
                &&& final(self).nodes()[n].first_edge == old(self).nodes()[n].first_edge
                &&& final(self).nodes()[n].edge_count == old(self).nodes()[n].edge_count
            },
            r is Ok ==> forall|n: int| 0 <= n < old(self).nodes().len() && !path@.contains(n as usize)
                ==> #[trigger] final(self).nodes()[n] == old(self).nodes()[n],
    {
        let mut i: usize = 0;
        while i < path.len()
            invariant
                i <= path@.len(),
                self.wf(),
                self.nodes() == old(self).nodes(),
                self.edges() == old(self).edges(),
                self.root() == old(self).root(),
                forall|j: int| 0 <= j < path@.len() ==> #[trigger] path@[j] < self.nodes().len(),
                forall|j: int| 0 <= j < i ==> self.nodes()[#[trigger] path@[j] as int].visits < u32::MAX,
            decreases path@.len() - i,
        {
            if self.nodes[path[i]].visits == u32::MAX {
                return Err(SearchError::VisitsExhausted);
            }
            i = i + 1;
        }
        let ghost before = *self;
        let mut level: usize = path.len();
        let mut current = outcome;
        while level > 0
            invariant
                before.wf(),
                level <= path@.len(),
                current as int == level_outcome(outcome as int, flip, path@.len() - level),
                outcome <= OUTCOME_SCALE,
                self.edges() == before.edges(),
                self.root() == before.root(),
                self.nodes().len() == before.nodes().len(),
                forall|j: int| 0 <= j < path@.len() ==> #[trigger] path@[j] < before.nodes().len(),
                forall|a: int, b: int| 0 <= a < b < path@.len() ==> #[trigger] path@[a] < #[trigger] path@[b],
                forall|j: int| 0 <= j < path@.len() ==> before.nodes()[#[trigger] path@[j] as int].visits < u32::MAX,
                forall|j: int| level <= j < path@.len() ==> {
                    let n = #[trigger] path@[j] as int;
                    &&& self.nodes()[n].visits == before.nodes()[n].visits + 1
                    &&& self.nodes()[n].score == before.nodes()[n].score + level_outcome(outcome as int, flip, path@.len() - 1 - j)
                    &&& self.nodes()[n].first_edge == before.nodes()[n].first_edge
                    &&& self.nodes()[n].edge_count == before.nodes()[n].edge_count
                },
                forall|n: int| 0 <= n < before.nodes().len() && !(exists|j: int| level <= j < path@.len() && path@[j] == n)
                    ==> #[trigger] self.nodes()[n] == before.nodes()[n],
            decreases level,
        {
            level = level - 1;
            let n = path[level];
            let mut node = self.nodes[n];
            assert(node == before.nodes()[n as int]) by {
                assert forall|j: int| level < j < path@.len() implies path@[j] != n by {
                    assert(path@[level as int] < path@[j]);
                }
            }
            assert(before.node_ok(n as int));
            assert(node.score + current <= (node.visits + 1) * OUTCOME_SCALE) by (nonlinear_arith)
                requires
                    node.score <= node.visits * OUTCOME_SCALE,
                    current <= OUTCOME_SCALE,
            ;
            assert((node.visits + 1) * OUTCOME_SCALE <= 0x1_0000_0000 * 1_000_000) by (nonlinear_arith)
                requires
                    node.visits < u32::MAX,
            ;
            node.visits = node.visits + 1;
            node.score = node.score + current as u64;
            self.nodes.set(n, node);
            assert forall|j: int| level <= j < path@.len() implies {
                let m = #[trigger] path@[j] as int;
                &&& self.nodes()[m].visits == before.nodes()[m].visits + 1
                &&& self.nodes()[m].score == before.nodes()[m].score + level_outcome(outcome as int, flip, path@.len() - 1 - j)
                &&& self.nodes()[m].first_edge == before.nodes()[m].first_edge
                &&& self.nodes()[m].edge_count == before.nodes()[m].edge_count
            } by {
                if j > level {
                    assert(path@[level as int] < path@[j]);
                }
            }
            if flip {
                current = OUTCOME_SCALE - current;
            }
        }
        assert forall|n: int| 0 <= n < self.nodes().len() implies #[trigger] self.node_ok(n) by {
            assert(before.node_ok(n));
            assert forall|k: int| 0 <= k < self.nodes()[n].edge_count implies #[trigger] self.edge_ok(n, k) by {
                assert(before.edge_ok(n, k));
            }
        }
        assert forall|m: int, m2: int| 0 <= m < m2 < self.nodes().len() implies #[trigger] self.ranges_ordered(m, m2) by {
            assert(before.ranges_ordered(m, m2));
        }
        assert forall|n: int| 0 <= n < before.nodes().len() && !path@.contains(n as usize)
            implies #[trigger] self.nodes()[n] == before.nodes()[n] by {
            if exists|j: int| 0 <= j < path@.len() && path@[j] == n {
                let j = choose|j: int| 0 <= j < path@.len() && path@[j] == n;
                assert(path@.contains(n as usize));
            }
        }
        assert forall|a: int, b: int, a2: int, b2: int| #[trigger] self.children_distinct(a, b, a2, b2) by {
            if 0 <= a < self.nodes().len() && 0 <= a2 < self.nodes().len() {
                assert(self.nodes()[a].first_edge == before.nodes()[a].first_edge && self.nodes()[a].edge_count
                    == before.nodes()[a].edge_count) by {
                    if exists|j: int| 0 <= j < path@.len() && path@[j] == a {
                        let j = choose|j: int| 0 <= j < path@.len() && path@[j] == a;
                        assert(path@[j] as int == a);
                    }
                }
                assert(self.nodes()[a2].first_edge == before.nodes()[a2].first_edge && self.nodes()[a2].edge_count
                    == before.nodes()[a2].edge_count) by {
                    if exists|j: int| 0 <= j < path@.len() && path@[j] == a2 {
                        let j = choose|j: int| 0 <= j < path@.len() && path@[j] == a2;
                        assert(path@[j] as int == a2);
                    }
                }
            }
            assert(before.children_distinct(a, b, a2, b2));
        }
        Ok(())
    }

    /// Credits a simulation's `outcome` along `path`: refused, changing
    /// nothing, when it is above `OUTCOME_SCALE`; otherwise as `backpropagate`.
    pub fn credit(&mut self, path: &Vec<usize>, outcome: u32, flip: bool) -> (r: Result<(), SearchError>)
        requires
            old(self).wf(),
            forall|i: int| 0 <= i < path@.len() ==> #[trigger] path@[i] < old(self).nodes().len(),
            forall|i: int, j: int| 0 <= i < j < path@.len() ==> #[trigger] path@[i] < #[trigger] path@[j],
        ensures
            final(self).wf(),
            final(self).edges() == old(self).edges(),
            final(self).root() == old(self).root(),
            final(self).nodes().len() == old(self).nodes().len(),
            outcome > OUTCOME_SCALE ==> r == Err::<(), SearchError>(SearchError::OutcomeOutOfRange),
            outcome <= OUTCOME_SCALE ==> (r is Err <==> exists|i: int| 0 <= i < path@.len() && old(self).nodes()[#[trigger] path@[i] as int].visits == u32::MAX),
            r is Err ==> final(self).nodes() == old(self).nodes(),
            r is Ok ==> forall|i: int| 0 <= i < path@.len() ==> {
                let n = #[trigger] path@[i] as int;
                &&& final(self).nodes()[n].visits == old(self).nodes()[n].visits + 1
                &&& final(self).nodes()[n].score == old(self).nodes()[n].score + level_outcome(
                    outcome as int,
                    flip,
                    path@.len() - 1 - i,
                )
                &&& final(self).nodes()[n].first_edge == old(self).nodes()[n].first_edge
                &&& final(self).nodes()[n].edge_count == old(self).nodes()[n].edge_count
            },
            r is Ok ==> forall|n: int| 0 <= n < old(self).nodes().len() && !path@.contains(n as usize)
                ==> #[trigger] final(self).nodes()[n] == old(self).nodes()[n],
    {
        if outcome > OUTCOME_SCALE {
            return Err(SearchError::OutcomeOutOfRange);
        }
        self.backpropagate(path, outcome, flip)
    }

    /// Edge `k` of the root is the first for `action`, and leads to a node.
    pub open spec fn reusable(&self, action: Move, k: int) -> bool {
        &&& 0 <= k < self.nodes()[self.root()].edge_count
        &&& self.edge_of(self.root(), k).action == action
        &&& forall|j: int| 0 <= j < k ==> self.edge_of(self.root(), j).action != action
        &&& self.edge_of(self.root(), k).child is Some
    }

    /// The first edge of the root whose action is `action`, if any.
    pub open spec fn root_edge_for(&self, action: Move) -> Option<int> {
        if exists|k: int| 0 <= k < self.nodes()[self.root()].edge_count && self.edge_of(self.root(), k).action == action {
            Some(choose|k: int| 0 <= k < self.nodes()[self.root()].edge_count && self.edge_of(self.root(), k).action == action
                && forall|j: int| 0 <= j < k ==> self.edge_of(self.root(), j).action != action)
        } else {
            None
        }
    }

    /// Makes the node reached from the root through the first edge for
    /// `action` the new root, when that node exists; the arena is unchanged,
    /// so the new root keeps its visits, score and edges.
    pub fn reuse_child(&mut self, action: Move) -> (r: bool)
        requires
            old(self).wf(),
        ensures
            final(self).wf(),
            final(self).nodes() == old(self).nodes(),
            final(self).edges() == old(self).edges(),
            r <==> exists|k: int| #[trigger] old(self).reusable(action, k),
            r ==> exists|k: int| #[trigger] old(self).reusable(action, k)
                && old(self).edge_of(old(self).root(), k).child->0 as int == final(self).root(),
            !r ==> final(self).root() == old(self).root(),
    {
        let root = self.root;
        let node = self.nodes[root];
        let len = self.edges.len();
        assert(self.node_ok(root as int));
        let mut k: usize = 0;
        while k < node.edge_count
            invariant
                self.wf(),
                self.nodes() == old(self).nodes(),
                self.edges() == old(self).edges(),
                self.root() == old(self).root(),
                root == self.root(),
                node == self.nodes()[root as int],
                len == self.edges().len(),
                node.first_edge + node.edge_count <= len,
                k <= node.edge_count,
                forall|j: int| 0 <= j < k ==> old(self).edge_of(root as int, j).action != action,
            decreases node.edge_count - k,
        {
            assert(self.node_ok(root as int));
            assert(self.edge_ok(root as int, k as int));
            let edge = &self.edges[node.first_edge + k];
            assert(*edge == old(self).edge_of(root as int, k as int));
            if edge.action == action {
                match edge.child {
                    Some(child) => {
                        let ghost before = *self;
                        self.root = child;
                        assert forall|m: int| 0 <= m < self.nodes().len() implies #[trigger] self.node_ok(m) by {
                            assert(before.node_ok(m));
                            assert forall|j: int| 0 <= j < self.nodes()[m].edge_count implies #[trigger] self.edge_ok(m, j) by {
                                assert(before.edge_ok(m, j));
                            }
                        }
                        assert forall|m: int, m2: int| 0 <= m < m2 < self.nodes().len() implies #[trigger] self.ranges_ordered(m, m2) by {
                            assert(before.ranges_ordered(m, m2));
                        }
                        assert forall|a: int, b: int, a2: int, b2: int| #[trigger] self.children_distinct(a, b, a2, b2) by {
                            assert(before.children_distinct(a, b, a2, b2));
                        }
                        assert(old(self).reusable(action, k as int));
                        assert(old(self).edge_of(old(self).root(), k as int).child->0 as int == self.root());
                        return true;
                    },
                    None => {
                        assert forall|j: int| !#[trigger] old(self).reusable(action, j) by {
                            if j > k && old(self).reusable(action, j) {
                                assert(old(self).edge_of(root as int, k as int).action == action);
                            }
                        }
                        return false;
                    },
                }
            }
            k = k + 1;
        }
        assert forall|j: int| !#[trigger] old(self).reusable(action, j) by {
            if 0 <= j < node.edge_count {
                assert(old(self).edge_of(root as int, j).action != action);
            }
        }
        false
    }

    /// Makes a new, unvisited node with one unexpanded edge per entry of
    /// `new_edges` the root.
    pub fn replace_root(&mut self, new_edges: Vec<(Move, D)>)
        requires
            old(self).wf(),
        ensures
            final(self).wf(),
            final(self).root() == old(self).nodes().len(),
            final(self).nodes().len() == old(self).nodes().len() + 1,
            final(self).nodes()[final(self).root()].visits == 0,
            final(self).nodes()[final(self).root()].score == 0,
            final(self).nodes()[final(self).root()].edge_count == new_edges@.len(),
            forall|j: int| 0 <= j < new_edges@.len() ==> (#[trigger] final(self).edge_of(final(self).root(), j)).action
                == new_edges@[j].0 && final(self).edge_of(final(self).root(), j).child is None,
    {
        let ghost before = *self;
        let index = self.nodes.len();
        let (first_edge, edge_count) = self.push_edges(new_edges);
        self.nodes.push(Node { visits: 0, score: 0, first_edge, edge_count });
        self.root = index;
        assert forall|a: int, b: int, a2: int, b2: int| #[trigger] self.children_distinct(a, b, a2, b2) by {
            if 0 <= a < self.nodes().len() && 0 <= b < self.nodes()[a].edge_count && 0 <= a2 < self.nodes().len() && 0 <= b2
                < self.nodes()[a2].edge_count && self.edge_of(a, b).child is Some {
                if a == index {
                    assert(self.edge_of(a, b).child is None);
                } else if a2 == index {
                    assert(self.edge_of(a2, b2).child is None);
                } else {
                    assert(before.node_ok(a));
                    assert(before.edge_ok(a, b));
                    assert(before.node_ok(a2));
                    assert(before.edge_ok(a2, b2));
                    assert(before.children_distinct(a, b, a2, b2));
                }
            }
        }
        assert forall|m: int, m2: int| 0 <= m < m2 < self.nodes().len() implies #[trigger] self.ranges_ordered(m, m2) by {
            if m2 < index {
                assert(before.ranges_ordered(m, m2));
            } else {
                assert(before.node_ok(m));
            }
        }
        assert forall|m: int| 0 <= m < self.nodes().len() implies #[trigger] self.node_ok(m) by {
            if m < index {
                assert(before.node_ok(m));
                assert forall|j: int| 0 <= j < self.nodes()[m].edge_count implies #[trigger] self.edge_ok(m, j) by {
                    assert(before.edge_ok(m, j));
                }
            }
        }
    }
}

} // verus!
