use vstd::prelude::*;

use crate::game::Move;
use crate::tree::{level_outcome, Node, SearchError, Tree, OUTCOME_SCALE};

verus! {

/// What a strategy decides at a node during selection.
#[derive(Clone, Copy, PartialEq, Eq, Structural, Debug)]
pub enum Selection {
    /// Stop here: the position is decided, with this outcome.
    Terminal(u32),
    /// Descend through the edge with this index.
    Selection(u32),
}

/// The game-specific side of the search. The engine calls `select` from the
/// root down, `expand` when it reaches an edge without a node, `simulate` on
/// the node it just created, and then credits the outcome to the path.
pub trait Strategy {
    /// What the strategy attaches to each edge.
    type Data;

    /// Starts a new simulation from the root position.
    fn reset(&mut self);

    /// Commits `action` in the root position.
    fn move_root(&mut self, action: &Move);

    /// Picks the edge to descend through at `node`, or ends the descent.
    fn select(&mut self, tree: &Tree<Self::Data>, node: usize) -> Selection;

    /// Lists the actions of the position reached by the last selection.
    fn expand(&mut self, tree: &Tree<Self::Data>, node: usize) -> Vec<(Move, Self::Data)>;

    /// Plays out the position reached and returns its outcome, at most `OUTCOME_SCALE`.
    fn simulate(&mut self, tree: &Tree<Self::Data>, node: usize) -> u32;

    /// Whether outcomes alternate with their complement from level to level,
    /// as in games where the players take turns; otherwise every node is
    /// credited from one fixed player's perspective.
    fn flips_outcome(&self) -> bool;
}

/// What the engine does with a selection made at `node`.
#[derive(Clone, Copy, PartialEq, Eq, Structural, Debug)]
pub enum Step {
    /// The descent stops with this outcome.
    Stop(u32),
    /// The descent goes on to this node.
    Next(usize),
    /// The edge with this index has no node yet: expand it.
    Expand(usize),
    /// The selected edge does not exist.
    OutOfRange,
}

/// The step that `selection` at `node` of `t` calls for.
pub open spec fn step_of<D>(t: Tree<D>, node: int, selection: Selection) -> Step {
    match selection {
        Selection::Terminal(score) => Step::Stop(score),
        Selection::Selection(index) => if index >= t.nodes()[node].edge_count {
            Step::OutOfRange
        } else {
            match t.edge_of(node, index as int).child {
                Some(c) => Step::Next(c),
                None => Step::Expand(index as usize),
            }
        },
    }
}

/// The step that `selection` at `node` calls for.
pub fn descend<D>(tree: &Tree<D>, node: usize, selection: Selection) -> (r: Step)
    requires
        tree.wf(),
        node < tree.nodes().len(),
    ensures
        r == step_of(*tree, node as int, selection),
{
    match selection {
        Selection::Terminal(score) => Step::Stop(score),
        Selection::Selection(index) => {
            if index as usize >= tree.node(node).edge_count {
                Step::OutOfRange
            } else {
                match tree.edge(node, index as usize).child {
                    Some(c) => Step::Next(c),
                    None => Step::Expand(index as usize),
                }
            }
        },
    }
}

/// Some edge of node `a` leads to node `b`.
pub open spec fn linked<D>(t: Tree<D>, a: int, b: int) -> bool {
    exists|k: int| 0 <= k < t.nodes()[a].edge_count && #[trigger] t.edge_of(a, k).child == Some(b as usize)
}

/// `path` runs from the root of `t` down through expanded edges.
pub open spec fn is_path<D>(t: Tree<D>, path: Seq<usize>) -> bool {
    &&& path.len() >= 1
    &&& path[0] == t.root()
    &&& forall|i: int| 0 <= i < path.len() ==> #[trigger] path[i] < t.nodes().len()
    &&& forall|i: int| 0 <= i < path.len() - 1 ==> linked(t, #[trigger] path[i] as int, path[i + 1] as int)
}

/// `after` keeps the shape of `before`: the same root, at most one more
/// node, every node its edges, every edge its action and, once it has one,
/// its child; and at most one edge gains a child.
pub open spec fn grown<D>(before: Tree<D>, after: Tree<D>) -> bool {
    &&& after.root() == before.root()
    &&& before.nodes().len() <= after.nodes().len() <= before.nodes().len() + 1
    &&& forall|n: int| 0 <= n < before.nodes().len() ==> (#[trigger] after.nodes()[n]).first_edge == before.nodes()[n].first_edge
        && after.nodes()[n].edge_count == before.nodes()[n].edge_count
    &&& forall|n: int, k: int| 0 <= n < before.nodes().len() && 0 <= k < before.nodes()[n].edge_count ==> (
    #[trigger] after.edge_of(n, k)).action == before.edge_of(n, k).action && (before.edge_of(n, k).child is Some
        ==> after.edge_of(n, k).child == before.edge_of(n, k).child)
    &&& exists|n0: int, k0: int| #[trigger] children_kept_but(before, after, n0, k0)
}

/// Every edge of `before` but edge `k0` of node `n0` keeps its child in `after`.
pub open spec fn children_kept_but<D>(before: Tree<D>, after: Tree<D>, n0: int, k0: int) -> bool {
    forall|n: int, k: int| 0 <= n < before.nodes().len() && 0 <= k < before.nodes()[n].edge_count && !(n == n0 && k == k0)
        ==> (#[trigger] after.edge_of(n, k)).child == before.edge_of(n, k).child
}

/// Visits of node `n` of `t`, none for a node not yet made.
pub open spec fn visits_in<D>(t: Tree<D>, n: int) -> int {
    if n < t.nodes().len() {
        t.nodes()[n].visits as int
    } else {
        0
    }
}

/// Score of node `n` of `t`, none for a node not yet made.
pub open spec fn score_in<D>(t: Tree<D>, n: int) -> int {
    if n < t.nodes().len() {
        t.nodes()[n].score as int
    } else {
        0
    }
}

/// Every node of `path` has one more visit and the outcome credited at its
/// level; every other node of `before` keeps its visits and score.
pub open spec fn credited<D>(before: Tree<D>, after: Tree<D>, path: Seq<usize>, outcome: int, flip: bool) -> bool {
    &&& forall|i: int| 0 <= i < path.len() ==> {
        let n = #[trigger] path[i] as int;
        &&& after.nodes()[n].visits == visits_in(before, n) + 1
        &&& after.nodes()[n].score == score_in(before, n) + level_outcome(outcome, flip, path.len() - 1 - i)
    }
    &&& forall|n: int| 0 <= n < before.nodes().len() && !path.contains(n as usize) ==> {
        &&& (#[trigger] after.nodes()[n]).visits == before.nodes()[n].visits
        &&& after.nodes()[n].score == before.nodes()[n].score
    }
}

/// The visits and scores of the nodes of `before` are untouched in `after`.
pub open spec fn untouched<D>(before: Tree<D>, after: Tree<D>) -> bool {
    forall|n: int| 0 <= n < before.nodes().len() ==> (#[trigger] after.nodes()[n]).visits == before.nodes()[n].visits
        && after.nodes()[n].score == before.nodes()[n].score
}

/// A Monte-Carlo tree search over a strategy.
pub struct MCTS<S: Strategy> {
    tree: Tree<S::Data>,
    strategy: S,
}

/// The relation between the tree before and after the root moves on by
/// `action`: the node already reached through the root's first edge for
/// `action` becomes the root, with the arena untouched; failing that, a
/// fresh, unvisited root takes its place.
pub open spec fn rerooted<D>(before: Tree<D>, after: Tree<D>, action: Move) -> bool {
    if exists|k: int| #[trigger] before.reusable(action, k) {
        &&& after.nodes() == before.nodes()
        &&& after.edges() == before.edges()
        &&& exists|k: int| #[trigger] before.reusable(action, k) && before.edge_of(before.root(), k).child->0 as int
            == after.root()
    } else {
        &&& after.root() == before.nodes().len()
        &&& after.nodes()[after.root()].visits == 0
        &&& after.nodes()[after.root()].score == 0
    }
}

/// Some expanded edge of the root for `action` leads to a node visited at
/// least as often as the node of any other expanded edge of the root.
pub open spec fn most_visited<D>(t: Tree<D>, action: Move) -> bool {
    exists|k: int| 0 <= k < t.nodes()[t.root()].edge_count && #[trigger] t.edge_of(t.root(), k).child is Some
        && t.edge_of(t.root(), k).action == action && forall|j: int| 0 <= j < t.nodes()[t.root()].edge_count
        && (#[trigger] t.edge_of(t.root(), j)).child is Some ==> t.nodes()[t.edge_of(t.root(), j).child->0 as int].visits
        <= t.nodes()[t.edge_of(t.root(), k).child->0 as int].visits
}

/// When `fin` differs from `mid` only in the visits and scores of the nodes
/// of `path`, it keeps the shape that `mid` grew from `start`, and the path.
proof fn lemma_same_shape<D>(start: Tree<D>, mid: Tree<D>, fin: Tree<D>, path: Seq<usize>)
    requires
        grown(start, mid),
        is_path(mid, path),
        fin.edges() == mid.edges(),
        fin.root() == mid.root(),
        fin.nodes().len() == mid.nodes().len(),
        forall|n: int| 0 <= n < mid.nodes().len() ==> (#[trigger] fin.nodes()[n]).first_edge == mid.nodes()[n].first_edge
            && fin.nodes()[n].edge_count == mid.nodes()[n].edge_count,
    ensures
        grown(start, fin),
        is_path(fin, path),
{
    assert forall|n: int, k: int| #![auto] 0 <= n < mid.nodes().len() implies fin.edge_of(n, k) == mid.edge_of(n, k) by {}
    let (n0, k0) = choose|n0: int, k0: int| #[trigger] children_kept_but(start, mid, n0, k0);
    assert(children_kept_but(start, fin, n0, k0));
    assert forall|i: int| 0 <= i < path.len() - 1 implies linked(fin, #[trigger] path[i] as int, path[i + 1] as int) by {
        assert(linked(mid, path[i] as int, path[i + 1] as int));
        let k = choose|k: int| 0 <= k < mid.nodes()[path[i] as int].edge_count && #[trigger] mid.edge_of(path[i] as int, k).child
            == Some(path[i + 1]);
        assert(fin.edge_of(path[i] as int, k) == mid.edge_of(path[i] as int, k));
    }
}

/// Visits of the node behind edge `k` of node `n`; none while unexpanded.
pub open spec fn child_visits<D>(t: Tree<D>, n: int, k: int) -> int {
    match t.edge_of(n, k).child {
        Some(c) => t.nodes()[c as int].visits as int,
        None => 0,
    }
}

/// Visits of the nodes behind the first `count` edges of node `n`, together.
pub open spec fn children_visits<D>(t: Tree<D>, n: int, count: int) -> int
    decreases count,
{
    if count <= 0 {
        0
    } else {
        children_visits(t, n, count - 1) + child_visits(t, n, count - 1)
    }
}

/// Every node from the root on has at least as many visits as its children
/// together. (Nodes before the root in the arena are left behind by
/// re-rooting.)
pub open spec fn visits_cover<D>(t: Tree<D>) -> bool {
    forall|n: int| t.root() <= n < t.nodes().len() ==> t.nodes()[n].visits >= #[trigger] children_visits(
        t,
        n,
        t.nodes()[n].edge_count as int,
    )
}

proof fn lemma_children_visits_shift<D>(t1: Tree<D>, t2: Tree<D>, n: int, count: int, k0: int, delta: int)
    requires
        forall|k: int| 0 <= k < count && k != k0 ==> child_visits(t2, n, k) == child_visits(t1, n, k),
        0 <= k0 < count ==> child_visits(t2, n, k0) == child_visits(t1, n, k0) + delta,
    ensures
        children_visits(t2, n, count) == children_visits(t1, n, count) + if 0 <= k0 < count {
            delta
        } else {
            0
        },
    decreases count,
{
    if count > 0 {
        lemma_children_visits_shift(t1, t2, n, count - 1, k0, delta);
    }
}

proof fn lemma_children_none<D>(t: Tree<D>, n: int, count: int)
    requires
        forall|k: int| 0 <= k < count ==> (#[trigger] t.edge_of(n, k)).child is None,
    ensures
        children_visits(t, n, count) == 0,
    decreases count,
{
    if count > 0 {
        lemma_children_none(t, n, count - 1);
    }
}

/// A child on `path` is reached from the node just before it on the path.
proof fn lemma_child_on_path<D>(t: Tree<D>, path: Seq<usize>, n: int, k: int, j: int)
    requires
        t.wf(),
        is_path(t, path),
        t.root() <= n < t.nodes().len(),
        0 <= k < t.nodes()[n].edge_count,
        0 <= j < path.len(),
        t.edge_of(n, k).child == Some(path[j]),
    ensures
        j >= 1,
        path[j - 1] == n,
{
    assert(t.node_ok(n));
    assert(t.edge_ok(n, k));
    if j >= 1 {
        assert(linked(t, path[j - 1] as int, path[j] as int));
        let k2 = choose|k2: int| 0 <= k2 < t.nodes()[path[j - 1] as int].edge_count && #[trigger] t.edge_of(path[j - 1] as int, k2).child
            == Some(path[j]);
        assert(t.children_distinct(n, k, path[j - 1] as int, k2));
    }
}

/// Expanding edge `index` of node `cur` into the new, unvisited node
/// `created` keeps every node covering its children.
proof fn lemma_cover_after_expand<D>(pre: Tree<D>, post: Tree<D>, cur: int, index: int, created: usize)
    requires
        pre.wf(),
        post.wf(),
        visits_cover(pre),
        0 <= cur < pre.nodes().len(),
        0 <= index < pre.nodes()[cur].edge_count,
        pre.edge_of(cur, index).child is None,
        created as int == pre.nodes().len(),
        post.root() == pre.root(),
        post.nodes() == pre.nodes().push(
            Node {
                visits: 0,
                score: 0,
                first_edge: post.nodes()[created as int].first_edge,
                edge_count: post.nodes()[created as int].edge_count,
            },
        ),
        post.edge_of(cur, index).child == Some(created),
        forall|m: int, j: int| 0 <= m < pre.nodes().len() && 0 <= j < pre.nodes()[m].edge_count && !(m == cur && j == index)
            ==> #[trigger] post.edge_of(m, j) == pre.edge_of(m, j),
        forall|j: int| 0 <= j < post.nodes()[created as int].edge_count ==> (#[trigger] post.edge_of(created as int, j)).child
            is None,
    ensures
        visits_cover(post),
{
    assert forall|n: int| post.root() <= n < post.nodes().len() implies post.nodes()[n].visits >= #[trigger] children_visits(
        post,
        n,
        post.nodes()[n].edge_count as int,
    ) by {
        if n == created as int {
            lemma_children_none(post, n, post.nodes()[n].edge_count as int);
        } else {
            assert(pre.nodes()[n].visits >= children_visits(pre, n, pre.nodes()[n].edge_count as int));
            assert forall|k: int| 0 <= k < pre.nodes()[n].edge_count implies child_visits(post, n, k) == child_visits(pre, n, k) by {
                assert(pre.node_ok(n));
                assert(pre.edge_ok(n, k));
                if !(n == cur && k == index) {
                    if pre.edge_of(n, k).child is Some {
                        let c = pre.edge_of(n, k).child->0 as int;
                        assert(post.nodes()[c] == pre.nodes()[c]);
                    }
                } else {
                    assert(post.nodes()[created as int].visits == 0);
                }
            }
            lemma_children_visits_shift(pre, post, n, pre.nodes()[n].edge_count as int, -1, 0);
        }
    }
}

/// What crediting a path from the root does to the tree: the same shape, one
/// more visit for the nodes of the path, and the same visits elsewhere.
pub open spec fn credited_along<D>(mid: Tree<D>, fin: Tree<D>, path: Seq<usize>) -> bool {
    &&& fin.edges() == mid.edges()
    &&& fin.root() == mid.root()
    &&& fin.nodes().len() == mid.nodes().len()
    &&& forall|n: int| 0 <= n < mid.nodes().len() ==> (#[trigger] fin.nodes()[n]).first_edge == mid.nodes()[n].first_edge
        && fin.nodes()[n].edge_count == mid.nodes()[n].edge_count
    &&& forall|i: int| 0 <= i < path.len() ==> fin.nodes()[#[trigger] path[i] as int].visits == mid.nodes()[path[i] as int].visits + 1
    &&& forall|n: int| 0 <= n < mid.nodes().len() && (forall|i: int| 0 <= i < path.len() ==> path[i] != n) ==> (
    #[trigger] fin.nodes()[n]).visits == mid.nodes()[n].visits
}

proof fn lemma_cover_node<D>(mid: Tree<D>, fin: Tree<D>, path: Seq<usize>, n: int)
    requires
        mid.wf(),
        visits_cover(mid),
        is_path(mid, path),
        forall|i: int, j: int| 0 <= i < j < path.len() ==> #[trigger] path[i] < #[trigger] path[j],
        credited_along(mid, fin, path),
        fin.root() <= n < fin.nodes().len(),
    ensures
        fin.nodes()[n].visits >= children_visits(fin, n, fin.nodes()[n].edge_count as int),
{
    let count = mid.nodes()[n].edge_count as int;
    assert(mid.nodes()[n].visits >= children_visits(mid, n, count));
    assert(mid.node_ok(n));
    if exists|i: int| 0 <= i < path.len() && path[i] == n {
        let i = choose|i: int| 0 <= i < path.len() && path[i] == n;
        let k0: int = if i < path.len() - 1 {
            choose|k: int| 0 <= k < mid.nodes()[path[i] as int].edge_count && #[trigger] mid.edge_of(path[i] as int, k).child
                == Some(path[i + 1])
        } else {
            -1
        };
        if i < path.len() - 1 {
            assert(linked(mid, path[i] as int, path[i + 1] as int));
            assert(fin.nodes()[path[i + 1] as int].visits == mid.nodes()[path[i + 1] as int].visits + 1);
            assert(fin.edge_of(n, k0) == mid.edge_of(n, k0));
        }
        assert forall|k: int| 0 <= k < count && k != k0 implies child_visits(fin, n, k) == child_visits(mid, n, k) by {
            assert(fin.edge_of(n, k) == mid.edge_of(n, k));
            assert(mid.edge_ok(n, k));
            if mid.edge_of(n, k).child is Some {
                let c = mid.edge_of(n, k).child->0;
                if exists|j: int| 0 <= j < path.len() && path[j] == c {
                    let j = choose|j: int| 0 <= j < path.len() && path[j] == c;
                    lemma_child_on_path(mid, path, n, k, j);
                    assert(j - 1 == i) by {
                        if j - 1 < i {
                            assert(path[j - 1] < path[i]);
                        } else if j - 1 > i {
                            assert(path[i] < path[j - 1]);
                        }
                    }
                    assert(mid.children_distinct(n, k, n, k0));
                }
                assert(forall|j: int| 0 <= j < path.len() ==> path[j] != c);
            }
        }
        lemma_children_visits_shift(mid, fin, n, count, k0, 1);
    } else {
        assert forall|k: int| 0 <= k < count implies child_visits(fin, n, k) == child_visits(mid, n, k) by {
            assert(fin.edge_of(n, k) == mid.edge_of(n, k));
            assert(mid.edge_ok(n, k));
            if mid.edge_of(n, k).child is Some {
                let c = mid.edge_of(n, k).child->0;
                if exists|j: int| 0 <= j < path.len() && path[j] == c {
                    let j = choose|j: int| 0 <= j < path.len() && path[j] == c;
                    lemma_child_on_path(mid, path, n, k, j);
                }
                assert(forall|j: int| 0 <= j < path.len() ==> path[j] != c);
            }
        }
        lemma_children_visits_shift(mid, fin, n, count, -1, 0);
    }
}

/// Crediting a path from the root keeps every node covering its children.
proof fn lemma_cover_after_credit<D>(mid: Tree<D>, fin: Tree<D>, path: Seq<usize>)
    requires
        mid.wf(),
        visits_cover(mid),
        is_path(mid, path),
        forall|i: int, j: int| 0 <= i < j < path.len() ==> #[trigger] path[i] < #[trigger] path[j],
        credited_along(mid, fin, path),
    ensures
        visits_cover(fin),
{
    assert forall|n: int| fin.root() <= n < fin.nodes().len() implies fin.nodes()[n].visits >= #[trigger] children_visits(
        fin,
        n,
        fin.nodes()[n].edge_count as int,
    ) by {
        lemma_cover_node(mid, fin, path, n);
    }
}

/// Re-rooting onto an action whose node was already expanded keeps that
/// node, with its visits and score, as the new root: the subtree is reused,
/// not reset.
pub proof fn lemma_reroot_keeps_subtree<D>(before: Tree<D>, after: Tree<D>, action: Move, k: int)
    requires
        before.wf(),
        before.reusable(action, k),
        rerooted(before, after, action),
    ensures
        after.root() == before.edge_of(before.root(), k).child->0 as int,
        after.nodes()[after.root()].visits == before.nodes()[before.edge_of(before.root(), k).child->0 as int].visits,
        after.nodes()[after.root()].score == before.nodes()[before.edge_of(before.root(), k).child->0 as int].score,
{
    let k2 = choose|k2: int| #[trigger] before.reusable(action, k2) && before.edge_of(before.root(), k2).child->0 as int
        == after.root();
    if k2 < k {
        assert(before.edge_of(before.root(), k2).action == action);
    } else if k < k2 {
        assert(before.edge_of(before.root(), k).action == action);
    }
    assert(before.node_ok(before.root()));
    assert(before.edge_ok(before.root(), k));
}

impl<S: Strategy> MCTS<S> {
    /// The search tree.
    pub closed spec fn spec_tree(&self) -> Tree<S::Data> {
        self.tree
    }

    pub open spec fn wf(&self) -> bool {
        &&& self.spec_tree().wf()
        &&& visits_cover(self.spec_tree())
    }

    /// A search whose tree is an unvisited root with the edges that the
    /// strategy lists for its root position.
    pub fn new(strategy: S) -> (r: MCTS<S>)
        ensures
            r.wf(),
            r.spec_tree().nodes().len() == 1,
            r.spec_tree().root() == 0,
            r.spec_tree().nodes()[0].visits == 0,
            r.spec_tree().nodes()[0].score == 0,
    {
        let mut strategy = strategy;
        let empty: Tree<S::Data> = Tree::new(Vec::new());
        let edges = strategy.expand(&empty, 0);
        let tree = Tree::new(edges);
        proof {
            lemma_children_none(tree, 0, tree.nodes()[0].edge_count as int);
        }
        MCTS { tree, strategy }
    }

    /// Commits `action`: reuses the subtree already searched below it when
    /// there is one, and otherwise starts a fresh tree.
    pub fn move_root(&mut self, action: Move)
        requires
            old(self).wf(),
        ensures
            final(self).wf(),
            rerooted(old(self).spec_tree(), final(self).spec_tree(), action),
    {
        self.strategy.move_root(&action);
        let ghost before = self.tree;
        if !self.tree.reuse_child(action) {
            let root = self.tree.root_index();
            let edges = self.strategy.expand(&self.tree, root);
            self.tree.replace_root(edges);
            proof {
                let r = self.tree.root();
                assert(self.tree.nodes().len() == r + 1);
                assert forall|k: int| 0 <= k < self.tree.nodes()[r].edge_count implies (#[trigger] self.tree.edge_of(r, k)).child is None by {}
                lemma_children_none(self.tree, r, self.tree.nodes()[r].edge_count as int);
            }
        } else {
            proof {
                let k = choose|k: int| #[trigger] before.reusable(action, k) && before.edge_of(before.root(), k).child->0 as int
                    == self.tree.root();
                assert(before.node_ok(before.root()));
                assert(before.edge_ok(before.root(), k));
                assert forall|n: int| self.tree.root() <= n < self.tree.nodes().len() implies self.tree.nodes()[n].visits
                    >= #[trigger] children_visits(self.tree, n, self.tree.nodes()[n].edge_count as int) by {
                    assert(before.nodes()[n].visits >= children_visits(before, n, before.nodes()[n].edge_count as int));
                    lemma_children_visits_shift(before, self.tree, n, before.nodes()[n].edge_count as int, -1, 0);
                }
            }
        }
    }

    /// The root's expanded edge with the most visits (the last of equals), and
    /// its visits; none when no edge of the root has been expanded.
    pub fn most_visits(&self) -> (r: Option<(Move, u32)>)
        requires
            self.wf(),
        ensures
            ({
                let t = self.spec_tree();
                let root = t.root();
                let best = r->0;
                &&& r is None <==> forall|k: int| 0 <= k < t.nodes()[root].edge_count ==> (#[trigger] t.edge_of(root, k)).child is None
                &&& r is Some ==> exists|k: int| 0 <= k < t.nodes()[root].edge_count && #[trigger] t.edge_of(root, k).child is Some
                    && t.edge_of(root, k).action == best.0 && t.nodes()[t.edge_of(root, k).child->0 as int].visits == best.1
                &&& r is Some ==> forall|k: int| 0 <= k < t.nodes()[root].edge_count && #[trigger] t.edge_of(root, k).child is Some
                    ==> t.nodes()[t.edge_of(root, k).child->0 as int].visits <= best.1
                &&& r is Some ==> most_visited(t, best.0)
            }),
    {
        let root = self.tree.root_index();
        let node = self.tree.node(root);
        let mut best: Option<(Move, u32)> = None;
        let ghost pair: (Move, u32) = (Move::Chance(0, 0), 0);
        let mut k: usize = 0;
        while k < node.edge_count
            invariant
                self.wf(),
                root == self.spec_tree().root(),
                node == self.spec_tree().nodes()[root as int],
                k <= node.edge_count,
                best is None <==> forall|j: int| 0 <= j < k ==> (#[trigger] self.spec_tree().edge_of(root as int, j)).child is None,
                best is Some ==> exists|j: int| 0 <= j < k && #[trigger] self.spec_tree().edge_of(root as int, j).child is Some
                    && self.spec_tree().edge_of(root as int, j).action == pair.0
                    && self.spec_tree().nodes()[self.spec_tree().edge_of(root as int, j).child->0 as int].visits == pair.1,
                best is Some ==> best == Some(pair),
                best is Some ==> forall|j: int| 0 <= j < k && #[trigger] self.spec_tree().edge_of(root as int, j).child is Some
                    ==> self.spec_tree().nodes()[self.spec_tree().edge_of(root as int, j).child->0 as int].visits <= pair.1,
            decreases node.edge_count - k,
        {
            let edge = self.tree.edge(root, k);
            proof {
                assert(self.spec_tree().node_ok(root as int));
                assert(self.spec_tree().edge_ok(root as int, k as int));
            }
            match edge.child {
                Some(child) => {
                    let visits = self.tree.node(child).visits;
                    let better = match best {
                        Some((_, most)) => visits >= most,
                        None => true,
                    };
                    if better {
                        best = Some((edge.action, visits));
                        proof {
                            pair = (edge.action, visits);
                        }
                    }
                },
                None => {},
            }
            k = k + 1;
        }
        best
    }

    /// Runs one simulation: selection from the root, expansion of the edge it
    /// ends on, simulation from the new node and backpropagation along the
    /// path. The tree only grows: at most one edge gains a node. On success
    /// every node of the path from the root has one more visit and the
    /// outcome, and every other node is untouched; on failure no visit or
    /// score changes.
    pub fn add_node(&mut self) -> (r: Result<(), SearchError>)
        requires
            old(self).wf(),
        ensures
            final(self).wf(),
            final(self).spec_tree().root() == old(self).spec_tree().root(),
            grown(old(self).spec_tree(), final(self).spec_tree()),
            r is Ok ==> exists|path: Seq<usize>, outcome: u32, flip: bool|
                is_path(final(self).spec_tree(), path) && outcome <= OUTCOME_SCALE && #[trigger] credited(
                    old(self).spec_tree(),
                    final(self).spec_tree(),
                    path,
                    outcome as int,
                    flip,
                ),
            r is Ok ==> final(self).spec_tree().nodes()[final(self).spec_tree().root()].visits == old(
                self,
            ).spec_tree().nodes()[old(self).spec_tree().root()].visits + 1,
            r is Err ==> untouched(old(self).spec_tree(), final(self).spec_tree()),
    {
        self.strategy.reset();
        let root = self.tree.root_index();
        let mut path: Vec<usize> = Vec::new();
        path.push(root);
        let mut cur = root;
        let mut outcome: u32 = 0;
        let ghost start = self.tree;
        proof {
            assert(children_kept_but(start, start, -1, -1));
        }
        loop
            invariant_except_break
                path@[path@.len() - 1] == cur,
                self.tree == start,
            invariant
                self.tree.wf(),
                start.wf(),
                start == old(self).spec_tree(),
                self.tree.root() == root,
                root == start.root(),
                cur < self.tree.nodes().len(),
                is_path(self.tree, path@),
                forall|i: int, j: int| 0 <= i < j < path@.len() ==> #[trigger] path@[i] < #[trigger] path@[j],
                grown(start, self.tree),
                visits_cover(self.tree),
                self.tree.nodes().len() == start.nodes().len() ==> self.tree == start,
                forall|n: int| 0 <= n < start.nodes().len() ==> #[trigger] self.tree.nodes()[n] == start.nodes()[n],
                forall|n: int| start.nodes().len() <= n < self.tree.nodes().len() ==> (#[trigger] self.tree.nodes()[n]).visits == 0
                    && self.tree.nodes()[n].score == 0,
            decreases self.tree.nodes().len() - cur,
        {
            let selection = self.strategy.select(&self.tree, cur);
            match descend(&self.tree, cur, selection) {
                Step::Stop(score) => {
                    outcome = score;
                    break ;
                },
                Step::OutOfRange => {
                    return Err(SearchError::SelectionOutOfRange);
                },
                Step::Next(next) => {
                    proof {
                        let index = selection->Selection_0 as int;
                        assert(self.tree.node_ok(cur as int));
                        assert(self.tree.edge_ok(cur as int, index));
                        assert(linked(self.tree, cur as int, next as int));
                    }
                    let ghost before = path@;
                    path.push(next);
                    proof {
                        assert forall|i: int| 0 <= i < path@.len() - 1 implies linked(
                            self.tree,
                            #[trigger] path@[i] as int,
                            path@[i + 1] as int,
                        ) by {
                            if i < before.len() - 1 {
                                assert(before[i] == path@[i] && before[i + 1] == path@[i + 1]);
                            }
                        }
                    }
                    cur = next;
                },
                Step::Expand(index) => {
                    let edges = self.strategy.expand(&self.tree, cur);
                    let ghost pre = self.tree;
                    let ghost before = path@;
                    let created = self.tree.expand(cur, index, edges);
                    path.push(created);
                    proof {
                        assert(children_kept_but(start, self.tree, cur as int, index as int));
                        assert forall|n: int| 0 <= n < start.nodes().len() implies #[trigger] self.tree.nodes()[n] == start.nodes()[n] by {
                            assert(self.tree.nodes()[n] == pre.nodes()[n]);
                        }
                        assert forall|n: int, k: int| 0 <= n < start.nodes().len() && 0 <= k < start.nodes()[n].edge_count implies (
                        #[trigger] self.tree.edge_of(n, k)).action == start.edge_of(n, k).action && (start.edge_of(n, k).child is Some
                            ==> self.tree.edge_of(n, k).child == start.edge_of(n, k).child) by {
                            if !(n == cur && k == index) {
                                assert(self.tree.edge_of(n, k) == pre.edge_of(n, k));
                            }
                        }
                        assert forall|i: int| 0 <= i < path@.len() - 1 implies linked(
                            self.tree,
                            #[trigger] path@[i] as int,
                            path@[i + 1] as int,
                        ) by {
                            if i < before.len() - 1 {
                                assert(before[i] == path@[i] && before[i + 1] == path@[i + 1]);
                                assert(linked(pre, before[i] as int, before[i + 1] as int));
                                let k = choose|k: int| 0 <= k < pre.nodes()[before[i] as int].edge_count && #[trigger] pre.edge_of(
                                    before[i] as int,
                                    k,
                                ).child == Some(before[i + 1]);
                                assert(self.tree.edge_of(before[i] as int, k) == pre.edge_of(before[i] as int, k));
                            } else {
                                assert(self.tree.edge_of(cur as int, index as int).child == Some(created));
                            }
                        }
                    }
                    proof {
                        lemma_cover_after_expand(pre, self.tree, cur as int, index as int, created);
                    }
                    outcome = self.strategy.simulate(&self.tree, created);
                    break ;
                },
            }
        }
        let ghost mid = self.tree;
        // Node numbers fit in `usize`: their count is a `Vec` length.
        let _count = self.tree.node_count();
        let flip = self.strategy.flips_outcome();
        let r = self.tree.credit(&path, outcome, flip);
        proof {
            assert forall|n: int| 0 <= n < mid.nodes().len() implies (#[trigger] self.tree.nodes()[n]).first_edge
                == mid.nodes()[n].first_edge && self.tree.nodes()[n].edge_count == mid.nodes()[n].edge_count by {
                assert(n as usize as int == n);
                if r is Ok && path@.contains(n as usize) {
                    let i = choose|i: int| 0 <= i < path@.len() && path@[i] == n as usize;
                    assert(path@[i] as int == n);
                }
            }
            lemma_same_shape(start, mid, self.tree, path@);
            if r is Ok {
                assert forall|n: int| 0 <= n < mid.nodes().len() && (forall|i: int| 0 <= i < path@.len() ==> path@[i] != n)
                    implies (#[trigger] self.tree.nodes()[n]).visits == mid.nodes()[n].visits by {
                    assert(n as usize as int == n);
                    if path@.contains(n as usize) {
                        let i = choose|i: int| 0 <= i < path@.len() && path@[i] == n as usize;
                        assert(path@[i] != n);
                    }
                }
                assert(credited_along(mid, self.tree, path@));
                lemma_cover_after_credit(mid, self.tree, path@);
            } else {
                assert forall|n: int| mid.root() <= n < mid.nodes().len() implies self.tree.nodes()[n].visits >= #[trigger] children_visits(
                    self.tree,
                    n,
                    self.tree.nodes()[n].edge_count as int,
                ) by {
                    assert(mid.nodes()[n].visits >= children_visits(mid, n, mid.nodes()[n].edge_count as int));
                    lemma_children_visits_shift(mid, self.tree, n, mid.nodes()[n].edge_count as int, -1, 0);
                }
            }
            if r is Err {
                assert forall|n: int| 0 <= n < start.nodes().len() implies (#[trigger] self.tree.nodes()[n]).visits
                    == start.nodes()[n].visits && self.tree.nodes()[n].score == start.nodes()[n].score by {
                    assert(mid.nodes()[n] == start.nodes()[n]);
                }
            } else {
                assert(credited(start, self.tree, path@, outcome as int, flip)) by {
                    assert forall|n: int| 0 <= n < start.nodes().len() && !path@.contains(n as usize) implies {
                        &&& (#[trigger] self.tree.nodes()[n]).visits == start.nodes()[n].visits
                        &&& self.tree.nodes()[n].score == start.nodes()[n].score
                    } by {
                        assert(mid.nodes()[n] == start.nodes()[n]);
                    }
                    assert forall|i: int| 0 <= i < path@.len() implies {
                        let n = #[trigger] path@[i] as int;
                        &&& self.tree.nodes()[n].visits == visits_in(start, n) + 1
                        &&& self.tree.nodes()[n].score == score_in(start, n) + level_outcome(outcome as int, flip, path@.len() - 1 - i)
                    } by {
                        let n = path@[i] as int;
                        if n < start.nodes().len() {
                            assert(mid.nodes()[n] == start.nodes()[n]);
                        }
                    }
                }
                assert(path@[0] == root);
                assert(self.tree.nodes()[root as int].visits == start.nodes()[root as int].visits + 1);
                assert(is_path(self.tree, path@) && outcome <= OUTCOME_SCALE && credited(
                    start,
                    self.tree,
                    path@,
                    outcome as int,
                    flip,
                ));
                assert(is_path(self.spec_tree(), path@) && outcome <= OUTCOME_SCALE && credited(
                    old(self).spec_tree(),
                    self.spec_tree(),
                    path@,
                    outcome as int,
                    flip,
                ));
            }
        }
        r
    }

    /// Statistics of the root node.
    pub fn root(&self) -> (r: crate::tree::Node)
        requires
            self.wf(),
        ensures
            r == self.spec_tree().nodes()[self.spec_tree().root()],
    {
        self.tree.node(self.tree.root_index())
    }

    /// The strategy.
    pub fn strategy(&self) -> &S {
        &self.strategy
    }

    /// The search tree.
    pub fn tree(&self) -> (r: &Tree<S::Data>)
        ensures
            *r == self.spec_tree(),
    {
        &self.tree
    }
}

} // verus!
