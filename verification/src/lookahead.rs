//! Lookahead sets and the graph along which they flow.
//!
//! A node owns a natural lookahead, fixed when the node is made, and a list of
//! dependencies that may grow. The lookahead of a node is what every node that
//! it reaches contributes.

use crate::token_set::TokenSet;
use vstd::prelude::*;

verus! {

/// Terminals that may follow, and whether the end of input may.
#[derive(Debug)]
pub struct LookAhead {
    pub tokens: TokenSet,
    pub can_eof_follow: bool,
}

impl Clone for LookAhead {
    fn clone(&self) -> (copy: Self)
        ensures
            copy.tokens@ == self.tokens@,
            copy.tokens.capacity() == self.tokens.capacity(),
            copy.can_eof_follow == self.can_eof_follow,
    {
        LookAhead { tokens: self.tokens.clone(), can_eof_follow: self.can_eof_follow }
    }
}

/// A node of a `LookAheadGraph`, named by its id.
#[derive(Debug, Clone, Copy, PartialEq, Eq, Structural)]
pub struct LookAheadNodeRef(pub usize);

#[derive(Debug)]
pub struct LookAheadNode {
    pub node_id: usize,
    pub natural_lookahead: LookAhead,
    pub dependencies: Vec<LookAheadNodeRef>,
}

/// The nodes made so far. A node's id is its position.
#[derive(Debug)]
pub struct LookAheadGraph {
    pub token_count: usize,
    pub nodes: Vec<LookAheadNode>,
}

/// A node as the contracts see it.
pub struct NodeView {
    pub tokens: Set<usize>,
    pub can_eof_follow: bool,
    pub dependencies: Seq<LookAheadNodeRef>,
}

/// Node `from` has `to` among its dependencies.
pub open spec fn has_edge(graph: Seq<NodeView>, from: int, to: int) -> bool {
    &&& 0 <= from < graph.len()
    &&& exists|k: int|
        0 <= k < graph[from].dependencies.len() && (#[trigger] graph[from].dependencies[k]).0
            == to
}

/// `path` walks along dependencies of `graph`.
pub open spec fn is_path(graph: Seq<NodeView>, path: Seq<int>) -> bool {
    &&& path.len() > 0
    &&& forall|i: int| 0 <= i < path.len() ==> 0 <= #[trigger] path[i] < graph.len()
    &&& forall|i: int| 0 <= i < path.len() - 1 ==> has_edge(graph, #[trigger] path[i], path[i + 1])
}

/// Some path leads from `from` to `to`; every node reaches itself.
pub open spec fn reaches(graph: Seq<NodeView>, from: int, to: int) -> bool {
    exists|path: Seq<int>| #[trigger]
        is_path(graph, path) && path[0] == from && path.last() == to
}

/// Terminals in the lookahead of `node`: those of the natural lookahead of a
/// node that `node` reaches.
pub open spec fn resolved_tokens(graph: Seq<NodeView>, node: int) -> Set<usize> {
    Set::new(
        |token: usize|
            exists|m: int| #[trigger] reaches(graph, node, m) && graph[m].tokens.contains(token),
    )
}

/// Whether the end of input is in the lookahead of `node`.
pub open spec fn resolved_eof(graph: Seq<NodeView>, node: int) -> bool {
    exists|m: int| #[trigger] reaches(graph, node, m) && graph[m].can_eof_follow
}

/// `later` has the nodes of `earlier` with the same natural lookaheads, and
/// each keeps the dependencies that it had.
pub open spec fn graph_extends(earlier: Seq<NodeView>, later: Seq<NodeView>) -> bool {
    &&& earlier.len() <= later.len()
    &&& forall|i: int|
        #![trigger earlier[i]]
        #![trigger later[i]]
        0 <= i < earlier.len() ==> {
            &&& later[i].tokens == earlier[i].tokens
            &&& later[i].can_eof_follow == earlier[i].can_eof_follow
            &&& earlier[i].dependencies.len() <= later[i].dependencies.len()
            &&& forall|k: int|
                0 <= k < earlier[i].dependencies.len() ==> #[trigger] later[i].dependencies[k]
                    == earlier[i].dependencies[k]
        }
}

pub proof fn lemma_reaches_self(graph: Seq<NodeView>, node: int)
    requires
        0 <= node < graph.len(),
    ensures
        reaches(graph, node, node),
{
    let path = seq![node];
    assert(is_path(graph, path));
    assert(path[0] == node && path.last() == node);
}

pub proof fn lemma_reaches_step(graph: Seq<NodeView>, from: int, via: int, to: int)
    requires
        has_edge(graph, from, via),
        reaches(graph, via, to),
    ensures
        reaches(graph, from, to),
{
    let tail = choose|path: Seq<int>| #[trigger]
        is_path(graph, path) && path[0] == via && path.last() == to;
    let path = seq![from] + tail;
    assert forall|i: int| 0 <= i < path.len() - 1 implies has_edge(
        graph,
        #[trigger] path[i],
        path[i + 1],
    ) by {
        if i > 0 {
            assert(path[i] == tail[i - 1]);
            assert(path[i + 1] == tail[i]);
        }
    }
    assert(is_path(graph, path));
    assert(path[0] == from && path.last() == to);
}

pub proof fn lemma_extends_transitive(a: Seq<NodeView>, b: Seq<NodeView>, c: Seq<NodeView>)
    requires
        graph_extends(a, b),
        graph_extends(b, c),
    ensures
        graph_extends(a, c),
{
    assert forall|i: int|
        #![trigger a[i]]
        #![trigger c[i]]
        0 <= i < a.len() implies {
        &&& c[i].tokens == a[i].tokens
        &&& c[i].can_eof_follow == a[i].can_eof_follow
        &&& a[i].dependencies.len() <= c[i].dependencies.len()
        &&& forall|k: int|
            0 <= k < a[i].dependencies.len() ==> #[trigger] c[i].dependencies[k]
                == a[i].dependencies[k]
    } by {
        assert(b[i].tokens == a[i].tokens);
        assert forall|k: int| 0 <= k < a[i].dependencies.len() implies #[trigger] c[i].dependencies[k]
            == a[i].dependencies[k] by {
            assert(b[i].dependencies[k] == a[i].dependencies[k]);
        }
    }
}

/// A dependency of a graph is a dependency of each graph that extends it.
pub proof fn lemma_edge_kept(earlier: Seq<NodeView>, later: Seq<NodeView>, from: int, to: int)
    requires
        graph_extends(earlier, later),
        has_edge(earlier, from, to),
    ensures
        has_edge(later, from, to),
{
    let k = choose|k: int|
        0 <= k < earlier[from].dependencies.len() && (#[trigger] earlier[from].dependencies[k]).0
            == to;
    assert(later[from].dependencies[k] == earlier[from].dependencies[k]);
}

/// A path of a graph is a path of each graph that extends it.
pub proof fn lemma_extends_keeps_reach(
    earlier: Seq<NodeView>,
    later: Seq<NodeView>,
    from: int,
    to: int,
)
    requires
        graph_extends(earlier, later),
        reaches(earlier, from, to),
    ensures
        reaches(later, from, to),
{
    let path = choose|path: Seq<int>| #[trigger]
        is_path(earlier, path) && path[0] == from && path.last() == to;
    assert forall|i: int| 0 <= i < path.len() - 1 implies has_edge(
        later,
        #[trigger] path[i],
        path[i + 1],
    ) by {
        assert(has_edge(earlier, path[i], path[i + 1]));
        let a = path[i];
        let k = choose|k: int|
            0 <= k < earlier[a].dependencies.len() && (#[trigger] earlier[a].dependencies[k]).0
                == path[i + 1];
        assert(later[a].dependencies[k] == earlier[a].dependencies[k]);
    }
    assert(is_path(later, path));
}

/// Adding nodes or dependencies never shrinks the lookahead of a node.
pub proof fn lemma_extension_grows_lookahead(
    earlier: Seq<NodeView>,
    later: Seq<NodeView>,
    node: int,
)
    requires
        graph_extends(earlier, later),
    ensures
        resolved_tokens(earlier, node).subset_of(resolved_tokens(later, node)),
        resolved_eof(earlier, node) ==> resolved_eof(later, node),
{
    assert forall|token: usize| resolved_tokens(earlier, node).contains(token) implies resolved_tokens(
        later,
        node,
    ).contains(token) by {
        let m = choose|m: int| #[trigger]
            reaches(earlier, node, m) && earlier[m].tokens.contains(token);
        lemma_extends_keeps_reach(earlier, later, node, m);
        lemma_reach_in_range(earlier, node, m);
        assert(later[m].tokens == earlier[m].tokens);
    }
    if resolved_eof(earlier, node) {
        let m = choose|m: int| #[trigger] reaches(earlier, node, m) && earlier[m].can_eof_follow;
        lemma_extends_keeps_reach(earlier, later, node, m);
        lemma_reach_in_range(earlier, node, m);
        assert(later[m].can_eof_follow == earlier[m].can_eof_follow);
    }
}

pub proof fn lemma_reach_in_range(graph: Seq<NodeView>, from: int, to: int)
    requires
        reaches(graph, from, to),
    ensures
        0 <= from < graph.len(),
        0 <= to < graph.len(),
{
    let path = choose|path: Seq<int>| #[trigger]
        is_path(graph, path) && path[0] == from && path.last() == to;
    assert(0 <= path[0] < graph.len());
    assert(0 <= path[path.len() - 1] < graph.len());
}

/// Adding the dependency `to` to the node `from` never shrinks the lookahead
/// of any node.
pub proof fn lemma_add_dependency_grows_lookahead(
    graph: Seq<NodeView>,
    from: int,
    to: LookAheadNodeRef,
    node: int,
)
    requires
        0 <= from < graph.len(),
    ensures
        resolved_tokens(graph, node).subset_of(
            resolved_tokens(with_dependency(graph, from, to), node),
        ),
        resolved_eof(graph, node) ==> resolved_eof(with_dependency(graph, from, to), node),
{
    lemma_extension_grows_lookahead(graph, with_dependency(graph, from, to), node);
}

/// `graph` with `to` appended to the dependencies of `from`.
pub open spec fn with_dependency(graph: Seq<NodeView>, from: int, to: LookAheadNodeRef) -> Seq<
    NodeView,
> {
    graph.update(
        from,
        NodeView {
            tokens: graph[from].tokens,
            can_eof_follow: graph[from].can_eof_follow,
            dependencies: graph[from].dependencies.push(to),
        },
    )
}

impl View for LookAheadNode {
    type V = NodeView;

    open spec fn view(&self) -> NodeView {
        NodeView {
            tokens: self.natural_lookahead.tokens@,
            can_eof_follow: self.natural_lookahead.can_eof_follow,
            dependencies: self.dependencies@,
        }
    }
}

impl View for LookAheadGraph {
    type V = Seq<NodeView>;

    open spec fn view(&self) -> Seq<NodeView> {
        Seq::new(self.nodes@.len(), |i: int| self.nodes@[i]@)
    }
}

impl LookAheadGraph {
    /// Each node stands at its id, ranges over the graph's terminals, and
    /// depends on nodes of the graph only.
    pub open spec fn wf(&self) -> bool {
        forall|i: int|
            0 <= i < self.nodes@.len() ==> {
                &&& (#[trigger] self.nodes@[i]).node_id == i
                &&& self.nodes@[i].natural_lookahead.tokens.capacity() == self.token_count
                &&& forall|k: int|
                    0 <= k < self.nodes@[i].dependencies@.len() ==> (
                    #[trigger] self.nodes@[i].dependencies@[k]).0 < self.nodes@.len()
            }
    }

    /// `node` names a node of the graph.
    pub open spec fn contains_node(&self, node: LookAheadNodeRef) -> bool {
        node.0 < self.nodes@.len()
    }

    /// The graph without nodes, for lookaheads over `token_count` terminals.
    pub fn new(token_count: usize) -> (graph: Self)
        ensures
            graph.wf(),
            graph.token_count == token_count,
            graph@ == Seq::<NodeView>::empty(),
    {
        let graph = LookAheadGraph { token_count, nodes: Vec::new() };
        assert(graph@ =~= Seq::<NodeView>::empty());
        graph
    }

    /// Number of nodes made so far, which is the id of the next one.
    pub fn node_count(&self) -> (count: usize)
        ensures
            count == self@.len(),
    {
        self.nodes.len()
    }
}

spec fn unvisited_count(visited: Seq<bool>) -> nat
    decreases visited.len(),
{
    if visited.len() == 0 {
        0
    } else {
        unvisited_count(visited.drop_last()) + if visited.last() {
            0nat
        } else {
            1nat
        }
    }
}

proof fn lemma_count_visit(visited: Seq<bool>, node: int)
    requires
        0 <= node < visited.len(),
        !visited[node],
    ensures
        unvisited_count(visited.update(node, true)) + 1 == unvisited_count(visited),
    decreases visited.len(),
{
    let updated = visited.update(node, true);
    if node == visited.len() - 1 {
        assert(updated.drop_last() =~= visited.drop_last());
    } else {
        assert(updated.drop_last() =~= visited.drop_last().update(node, true));
        lemma_count_visit(visited.drop_last(), node);
    }
}

proof fn lemma_count_monotone(before: Seq<bool>, after: Seq<bool>)
    requires
        before.len() == after.len(),
        forall|i: int| 0 <= i < before.len() && #[trigger] before[i] ==> after[i],
    ensures
        unvisited_count(after) <= unvisited_count(before),
    decreases before.len(),
{
    if before.len() > 0 {
        assert forall|i: int|
            0 <= i < before.drop_last().len() && #[trigger] before.drop_last()[i] implies after.drop_last()[i] by {
            assert(before[i]);
        }
        lemma_count_monotone(before.drop_last(), after.drop_last());
        assert(before[before.len() - 1] == before.last());
    }
}

/// A walk from `node` took place: the visited set only grew.
spec fn visit_extends(before: Seq<bool>, after: Seq<bool>) -> bool {
    &&& before.len() == after.len()
    &&& forall|i: int|
        #![trigger before[i]]
        #![trigger after[i]]
        0 <= i < before.len() && before[i] ==> after[i]
}

/// `found` holds the natural lookahead of `m`, and the dependencies of `m`
/// are visited.
spec fn node_closed(
    graph: Seq<NodeView>,
    m: int,
    visited: Seq<bool>,
    tokens: Set<usize>,
    eof: bool,
) -> bool {
    &&& graph[m].tokens.subset_of(tokens)
    &&& graph[m].can_eof_follow ==> eof
    &&& forall|k: int|
        0 <= k < graph[m].dependencies.len() ==> visited[(#[trigger] graph[m].dependencies[k]).0 as int]
}

/// Each node visited since `before` is closed.
spec fn visited_closed(
    graph: Seq<NodeView>,
    before: Seq<bool>,
    visited: Seq<bool>,
    tokens: Set<usize>,
    eof: bool,
) -> bool {
    forall|m: int|
        0 <= m < visited.len() && !before[m] && #[trigger] visited[m] ==> node_closed(
            graph,
            m,
            visited,
            tokens,
            eof,
        )
}

/// A path that starts in a visited node stays within the visited nodes, when
/// the dependencies of each visited node are visited.
proof fn lemma_path_stays_visited(graph: Seq<NodeView>, visited: Seq<bool>, path: Seq<int>, i: int)
    requires
        visited.len() == graph.len(),
        is_path(graph, path),
        visited[path[0]],
        forall|m: int|
            0 <= m < visited.len() && #[trigger] visited[m] ==> forall|k: int|
                0 <= k < graph[m].dependencies.len() ==> visited[(
                #[trigger] graph[m].dependencies[k]).0 as int],
        0 <= i < path.len(),
    ensures
        visited[path[i]],
    decreases i,
{
    if i > 0 {
        lemma_path_stays_visited(graph, visited, path, i - 1);
        assert(has_edge(graph, path[i - 1], path[i]));
    }
}

impl LookAheadNodeRef {
    /// Makes the node that an automaton starts from: only the end of input
    /// follows, and it depends on nothing.
    pub fn initial_lookahead_node(graph: &mut LookAheadGraph) -> (node: LookAheadNodeRef)
        requires
            old(graph).wf(),
        ensures
            final(graph).wf(),
            final(graph).token_count == old(graph).token_count,
            node.0 == old(graph)@.len(),
            final(graph)@ == old(graph)@.push(
                NodeView {
                    tokens: Set::<usize>::empty(),
                    can_eof_follow: true,
                    dependencies: Seq::<LookAheadNodeRef>::empty(),
                },
            ),
            final(graph).contains_node(node),
            forall|other: LookAheadNodeRef|
                old(graph).contains_node(other) ==> final(graph).contains_node(other),
    {
        let natural = LookAhead { tokens: TokenSet::new(graph.token_count), can_eof_follow: true };
        Self::new(graph, natural, Vec::new())
    }

    /// Makes a node with the given natural lookahead and dependencies. Its id
    /// is the number of nodes made before it.
    pub fn new(
        graph: &mut LookAheadGraph,
        natural_lookahead: LookAhead,
        dependencies: Vec<LookAheadNodeRef>,
    ) -> (node: LookAheadNodeRef)
        requires
            old(graph).wf(),
            natural_lookahead.tokens.capacity() == old(graph).token_count,
            forall|k: int|
                0 <= k < dependencies@.len() ==> old(graph).contains_node(#[trigger] dependencies@[k]),
        ensures
            final(graph).wf(),
            final(graph).token_count == old(graph).token_count,
            node.0 == old(graph)@.len(),
            final(graph)@ == old(graph)@.push(
                NodeView {
                    tokens: natural_lookahead.tokens@,
                    can_eof_follow: natural_lookahead.can_eof_follow,
                    dependencies: dependencies@,
                },
            ),
            final(graph).contains_node(node),
            forall|other: LookAheadNodeRef|
                old(graph).contains_node(other) ==> final(graph).contains_node(other),
    {
        let node_id = graph.nodes.len();
        let ghost view = NodeView {
            tokens: natural_lookahead.tokens@,
            can_eof_follow: natural_lookahead.can_eof_follow,
            dependencies: dependencies@,
        };
        graph.nodes.push(LookAheadNode { node_id, natural_lookahead, dependencies });
        assert(graph@ =~= old(graph)@.push(view));
        LookAheadNodeRef(node_id)
    }

    /// Appends `dependency` to the dependencies of this node. Cycles are
    /// permitted.
    pub fn add_dependency(&self, graph: &mut LookAheadGraph, dependency: LookAheadNodeRef)
        requires
            old(graph).wf(),
            old(graph).contains_node(*self),
            old(graph).contains_node(dependency),
        ensures
            final(graph).wf(),
            final(graph).token_count == old(graph).token_count,
            final(graph)@ == with_dependency(old(graph)@, self.0 as int, dependency),
            graph_extends(old(graph)@, final(graph)@),
            forall|other: LookAheadNodeRef|
                old(graph).contains_node(other) <==> final(graph).contains_node(other),
    {
        let ghost before = graph.nodes@;
        graph.nodes[self.0].dependencies.push(dependency);
        assert(graph.nodes@[self.0 as int].natural_lookahead == before[self.0 as int].natural_lookahead);
        assert(graph@ =~= with_dependency(old(graph)@, self.0 as int, dependency));
    }

    /// What this node and the nodes that it reaches contribute, those in
    /// `visited` left out. Nodes on the way are added to `visited`.
    fn compute_lookahead_helper(&self, graph: &LookAheadGraph, visited: &mut Vec<bool>) -> (res:
        LookAhead)
        requires
            graph.wf(),
            graph.contains_node(*self),
            old(visited)@.len() == graph@.len(),
        ensures
            visit_extends(old(visited)@, final(visited)@),
            final(visited)@[self.0 as int],
            res.tokens.capacity() == graph.token_count,
            res.tokens@.subset_of(resolved_tokens(graph@, self.0 as int)),
            res.can_eof_follow ==> resolved_eof(graph@, self.0 as int),
            visited_closed(
                graph@,
                old(visited)@,
                final(visited)@,
                res.tokens@,
                res.can_eof_follow,
            ),
        decreases unvisited_count(old(visited)@),
    {
        let me = self.0;
        if visited[me] {
            return LookAhead { tokens: TokenSet::new(graph.token_count), can_eof_follow: false };
        }
        let ghost entry = visited@;
        visited[me] = true;
        let node = &graph.nodes[me];
        let mut res = node.natural_lookahead.clone();
        proof {
            lemma_reaches_self(graph@, me as int);
        }
        let mut k: usize = 0;
        while k < node.dependencies.len()
            invariant
                graph.wf(),
                me < graph@.len(),
                me == self.0,
                *node == graph.nodes@[me as int],
                k <= node.dependencies@.len(),
                entry == old(visited)@,
                entry.len() == graph@.len(),
                !entry[me as int],
                visit_extends(entry.update(me as int, true), visited@),
                res.tokens.capacity() == graph.token_count,
                res.tokens@.subset_of(resolved_tokens(graph@, me as int)),
                res.can_eof_follow ==> resolved_eof(graph@, me as int),
                graph@[me as int].tokens.subset_of(res.tokens@),
                graph@[me as int].can_eof_follow ==> res.can_eof_follow,
                forall|j: int| 0 <= j < k ==> visited@[(#[trigger] node.dependencies@[j]).0 as int],
                forall|m: int|
                    0 <= m < visited@.len() && m != me && !entry[m] && #[trigger] visited@[m]
                        ==> node_closed(graph@, m, visited@, res.tokens@, res.can_eof_follow),
            decreases node.dependencies@.len() - k,
        {
            let dep = node.dependencies[k];
            let ghost before = visited@;
            let ghost found = res.tokens@;
            let ghost found_eof = res.can_eof_follow;
            proof {
                lemma_count_visit(entry, me as int);
                lemma_count_monotone(entry.update(me as int, true), before);
            }
            let part = dep.compute_lookahead_helper(graph, visited);
            res.tokens.extend(&part.tokens);
            res.can_eof_follow = res.can_eof_follow || part.can_eof_follow;
            proof {
                assert(graph@[me as int].dependencies[k as int] == dep);
                assert(has_edge(graph@, me as int, dep.0 as int));
                assert forall|token: usize| part.tokens@.contains(token) implies resolved_tokens(
                    graph@,
                    me as int,
                ).contains(token) by {
                    let m = choose|m: int| #[trigger]
                        reaches(graph@, dep.0 as int, m) && graph@[m].tokens.contains(token);
                    lemma_reaches_step(graph@, me as int, dep.0 as int, m);
                }
                if part.can_eof_follow {
                    let m = choose|m: int| #[trigger]
                        reaches(graph@, dep.0 as int, m) && graph@[m].can_eof_follow;
                    lemma_reaches_step(graph@, me as int, dep.0 as int, m);
                }
                assert forall|m: int|
                    0 <= m < visited@.len() && m != me && !entry[m] && #[trigger] visited@[m] implies node_closed(
                    graph@,
                    m,
                    visited@,
                    res.tokens@,
                    res.can_eof_follow,
                ) by {
                    if before[m] {
                        assert(node_closed(graph@, m, before, found, found_eof));
                        assert forall|j: int|
                            0 <= j < graph@[m].dependencies.len() implies visited@[(
                        #[trigger] graph@[m].dependencies[j]).0 as int] by {
                            assert(before[graph@[m].dependencies[j].0 as int]);
                        }
                    } else {
                        assert(node_closed(
                            graph@,
                            m,
                            visited@,
                            part.tokens@,
                            part.can_eof_follow,
                        ));
                    }
                }
                assert forall|j: int| 0 <= j < k + 1 implies visited@[(
                #[trigger] node.dependencies@[j]).0 as int] by {
                    if j < k {
                        assert(before[node.dependencies@[j].0 as int]);
                    }
                }
            }
            k += 1;
        }
        proof {
            assert forall|m: int|
                0 <= m < visited@.len() && !entry[m] && #[trigger] visited@[m] implies node_closed(
                graph@,
                m,
                visited@,
                res.tokens@,
                res.can_eof_follow,
            ) by {
                if m == me {
                    assert forall|j: int|
                        0 <= j < graph@[m].dependencies.len() implies visited@[(
                    #[trigger] graph@[m].dependencies[j]).0 as int] by {
                        assert(visited@[node.dependencies@[j].0 as int]);
                    }
                }
            }
        }
        res
    }

    /// The lookahead of this node: what its natural lookahead and those of all
    /// nodes that it reaches hold together.
    pub fn compute_lookahead(&self, graph: &LookAheadGraph) -> (res: LookAhead)
        requires
            graph.wf(),
            graph.contains_node(*self),
        ensures
            res.tokens@ == resolved_tokens(graph@, self.0 as int),
            res.can_eof_follow == resolved_eof(graph@, self.0 as int),
            res.tokens.capacity() == graph.token_count,
    {
        let mut visited: Vec<bool> = Vec::new();
        let mut i: usize = 0;
        while i < graph.nodes.len()
            invariant
                i <= graph.nodes@.len(),
                visited@.len() == i,
                forall|j: int| 0 <= j < i ==> !#[trigger] visited@[j],
            decreases graph.nodes@.len() - i,
        {
            visited.push(false);
            i += 1;
        }
        let ghost entry = visited@;
        let res = self.compute_lookahead_helper(graph, &mut visited);
        proof {
            let g = graph@;
            let seen = visited@;
            assert forall|m: int| 0 <= m < seen.len() && #[trigger] seen[m] implies forall|k: int|
                0 <= k < g[m].dependencies.len() ==> seen[(#[trigger] g[m].dependencies[k]).0 as int] by {
                assert(!entry[m]);
                assert(node_closed(g, m, seen, res.tokens@, res.can_eof_follow));
            }
            assert forall|m: int| #[trigger] reaches(g, self.0 as int, m) implies 0 <= m < g.len()
                && seen[m] by {
                let path = choose|path: Seq<int>| #[trigger]
                    is_path(g, path) && path[0] == self.0 as int && path.last() == m;
                lemma_path_stays_visited(g, seen, path, path.len() - 1);
            }
            assert forall|token: usize|
                resolved_tokens(g, self.0 as int).contains(token) implies res.tokens@.contains(
                token,
            ) by {
                let m = choose|m: int| #[trigger]
                    reaches(g, self.0 as int, m) && g[m].tokens.contains(token);
                assert(!entry[m]);
                assert(node_closed(g, m, seen, res.tokens@, res.can_eof_follow));
            }
            if resolved_eof(g, self.0 as int) {
                let m = choose|m: int| #[trigger]
                    reaches(g, self.0 as int, m) && g[m].can_eof_follow;
                assert(!entry[m]);
                assert(node_closed(g, m, seen, res.tokens@, res.can_eof_follow));
            }
            assert(res.tokens@ =~= resolved_tokens(g, self.0 as int));
        }
        res
    }
}

} // verus!
