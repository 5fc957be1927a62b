//! The planar graph behind cutting a plan outline into blast shapes.
//!
//! Cut lines and outline rings are split at their crossings and welded into
//! a graph whose bounded faces are the shapes. This module holds the graph's
//! combinatorial side: adding edges, pruning chains that lead nowhere,
//! labelling connected components, and walking faces once each node's
//! neighbours are in counter-clockwise order. Where the nodes lie, and the
//! angular sort, are geometry and stay with the caller.
use vstd::prelude::*;

pub mod components;
pub mod faces;

verus! {

/// The welded planar graph: each node's neighbours, each undirected edge
/// listed from both ends exactly once.
#[derive(Clone, Debug)]
pub struct Graph {
    pub adjacency: Vec<Vec<usize>>,
}

impl Default for Graph {
    fn default() -> (g: Self)
        ensures
            g.adjacency@.len() == 0,
            g.well_formed(),
    {
        Graph { adjacency: Vec::new() }
    }
}

impl Graph {
    /// Neighbour lists as sequences.
    pub open spec fn adj(&self) -> Seq<Seq<usize>> {
        self.adjacency@.map_values(|v: Vec<usize>| v@)
    }

    /// Number of nodes.
    pub open spec fn node_count(&self) -> int {
        self.adjacency.len() as int
    }

    /// Whether `b` is a neighbour of `a`.
    pub open spec fn has_edge(&self, a: int, b: int) -> bool {
        0 <= a < self.node_count() && 0 <= b < self.node_count() && self.adj()[a].contains(b as usize)
    }

    /// Neighbours are nodes of the graph other than the node itself, listed
    /// once each, and every edge is listed from both of its ends.
    pub open spec fn well_formed(&self) -> bool {
        &&& forall|a: int, k: int|
            0 <= a < self.node_count() && 0 <= k < self.adj()[a].len() ==> (#[trigger] self.adj()[a][k])
                < self.node_count() && self.adj()[a][k] != a
        &&& forall|a: int| 0 <= a < self.node_count() ==> (#[trigger] self.adj()[a]).no_duplicates()
        &&& forall|a: int, b: int| #[trigger] self.has_edge(a, b) ==> self.has_edge(b, a)
    }

    /// Adds a node with no neighbours and returns its index. Deciding that a
    /// point needs a new node, rather than welding onto one within tolerance,
    /// is geometry and is the caller's.
    pub fn add_node(&mut self) -> (index: usize)
        requires
            old(self).well_formed(),
            old(self).node_count() < usize::MAX,
        ensures
            final(self).well_formed(),
            index == old(self).node_count(),
            final(self).adj() == old(self).adj().push(Seq::<usize>::empty()),
    {
        let index = self.adjacency.len();
        let ghost before = self.adj();
        self.adjacency.push(Vec::new());
        proof {
            assert(self.adj() =~= before.push(Seq::<usize>::empty()));
            assert forall|x: int, y: int| #[trigger] self.has_edge(x, y) implies self.has_edge(y, x) by {
                assert(x < index && y < index);
                assert(self.adj()[x] == before[x]);
                assert(old(self).has_edge(x, y));
            }
            assert forall|x: int, k: int|
                0 <= x < self.node_count() && 0 <= k < self.adj()[x].len() implies (#[trigger] self.adj()[x][k])
                < self.node_count() && self.adj()[x][k] != x by {
                assert(self.adj()[x] == before[x]);
            }
            assert forall|x: int| 0 <= x < self.node_count() implies (#[trigger] self.adj()[x]).no_duplicates() by {
                assert(x < index ==> self.adj()[x] == before[x]);
            }
        }
        index
    }

    /// Connects nodes `a` and `b`, unless they are the same node or already
    /// connected.
    pub fn add_edge(&mut self, a: usize, b: usize)
        requires
            old(self).well_formed(),
            a < old(self).node_count(),
            b < old(self).node_count(),
        ensures
            final(self).well_formed(),
            if a == b || old(self).has_edge(a as int, b as int) {
                final(self).adj() == old(self).adj()
            } else {
                final(self).adj() == old(self).adj().update(
                    a as int,
                    old(self).adj()[a as int].push(b),
                ).update(b as int, old(self).adj()[b as int].push(a))
            },
    {
        if a == b || contains(&self.adjacency[a], b) {
            return;
        }
        let ghost before = self.adj();
        self.adjacency[a].push(b);
        self.adjacency[b].push(a);
        proof {
            assert(self.adj() =~= before.update(a as int, before[a as int].push(b)).update(
                b as int,
                before[b as int].push(a),
            ));
            let after = self.adj();
            assert forall|x: int, y: int| #[trigger] self.has_edge(x, y) implies self.has_edge(y, x) by {
                if x == a && y == b {
                    assert(after[b as int].last() == a);
                } else if x == b && y == a {
                    assert(after[a as int].last() == b);
                } else {
                    assert(self.adjacency@.len() == self.adjacency.len());
                    assert(0 <= x < before.len());
                    assert(after[x].contains(y as usize));
                    if x == a {
                        assert(after[x] == before[a as int].push(b));
                        lemma_push_contains(before[a as int], b, y as usize);
                    } else if x == b {
                        assert(after[x] == before[b as int].push(a));
                        lemma_push_contains(before[b as int], a, y as usize);
                    } else {
                        assert(after[x] == before[x]);
                    }
                    assert(before[x].contains(y as usize));
                    assert(old(self).adj() == before);
                    assert(old(self).has_edge(x, y));
                    assert(old(self).has_edge(y, x));
                    if y == a {
                        lemma_push_contains(before[a as int], b, x as usize);
                    } else if y == b {
                        lemma_push_contains(before[b as int], a, x as usize);
                    }
                }
            }
            assert forall|x: int, k: int|
                0 <= x < self.node_count() && 0 <= k < self.adj()[x].len() implies (#[trigger] self.adj()[x][k])
                < self.node_count() && self.adj()[x][k] != x by {
                if (x == a || x == b) && k < before[x].len() {
                    assert(self.adj()[x][k] == before[x][k]);
                } else if x != a && x != b {
                    assert(self.adj()[x] == before[x]);
                }
            }
            assert forall|x: int| 0 <= x < self.node_count() implies (#[trigger] self.adj()[x]).no_duplicates() by {
                if x == a {
                    assert(!before[a as int].contains(b));
                } else if x == b {
                    assert(!before[b as int].contains(a)) by {
                        if before[b as int].contains(a) {
                            assert(old(self).has_edge(b as int, a as int));
                        }
                    }
                }
            }
        }
    }

    /// Whether no node has exactly one neighbour.
    pub open spec fn no_dangling_nodes(&self) -> bool {
        forall|a: int| 0 <= a < self.node_count() ==> (#[trigger] self.adj()[a]).len() != 1
    }

    /// Whether every pair of `h` is an edge of the graph.
    pub open spec fn contains_edges(&self, h: Set<(int, int)>) -> bool {
        forall|e: (int, int)| #[trigger] h.contains(e) ==> self.has_edge(e.0, e.1)
    }

    /// Whether each neighbour list is the one of `original`, cut down to the
    /// edges this graph still has, in the same order.
    pub open spec fn keeps_order_of(&self, original: Graph) -> bool {
        forall|a: int|
            0 <= a < self.node_count() ==> #[trigger] self.adj()[a] == neighbours_kept(
                *self,
                a,
                original.adj()[a],
            )
    }

    /// Whether every undirected edge set of `original` in which no node has a
    /// single neighbour is part of this graph.
    pub open spec fn keeps_cores_of(&self, original: Graph) -> bool {
        forall|h: Set<(int, int)>|
            #[trigger] original.contains_edges(h) && is_undirected(h) && has_no_dangling(h)
                ==> self.contains_edges(h)
    }

    /// Whether this graph is what pruning `original` leaves: the largest part
    /// of it in which no node has a single neighbour, with every neighbour
    /// list in its original order.
    pub open spec fn is_pruned_from(&self, original: Graph) -> bool {
        &&& self.well_formed()
        &&& self.node_count() == original.node_count()
        &&& self.no_dangling_nodes()
        &&& forall|a: int, b: int| #[trigger] self.has_edge(a, b) ==> original.has_edge(a, b)
        &&& self.keeps_cores_of(original)
        &&& self.keeps_order_of(original)
    }

    /// Drop the chains that lead nowhere: a cut line that stops short of the
    /// boundary, or the stub left where one overshoots it. They bound no face,
    /// and left in they would be walked out and back as a zero-width spike in
    /// the ring of the face they reach into.
    ///
    /// What remains is the largest part of the graph in which no node has a
    /// single neighbour; every neighbour list keeps its order.
    pub fn prune_dangling(&mut self)
        requires
            old(self).well_formed(),
        ensures
            final(self).is_pruned_from(*old(self)),
    {
        let ghost original = *self;
        let n = self.adjacency.len();
        let mut stack: Vec<usize> = Vec::new();
        let mut i: usize = 0;
        while i < n
            invariant
                n == self.adjacency.len(),
                *self == original,
                i <= n,
                forall|k: int| 0 <= k < stack.len() ==> #[trigger] stack@[k] < n,
                forall|a: int| 0 <= a < i && (#[trigger] self.adj()[a]).len() == 1 ==> stack@.contains(a as usize),
            decreases n - i,
        {
            let ghost before_stack = stack@;
            if self.adjacency[i].len() == 1 {
                stack.push(i);
            }
            proof {
                assert forall|a: int| 0 <= a < i + 1 && (#[trigger] self.adj()[a]).len() == 1 implies stack@.contains(a as usize) by {
                    if self.adj()[i as int].len() == 1 {
                        lemma_push_contains(before_stack, i, a as usize);
                    }
                }
            }
            i = i + 1;
        }
        proof {
            self.lemma_keeps_own_order();
        }
        while stack.len() > 0
            invariant
                n == self.adjacency.len(),
                n == original.node_count(),
                self.well_formed(),
                forall|k: int| 0 <= k < stack.len() ==> #[trigger] stack@[k] < n,
                forall|a: int| 0 <= a < n && (#[trigger] self.adj()[a]).len() == 1 ==> stack@.contains(a as usize),
                forall|a: int, b: int| #[trigger] self.has_edge(a, b) ==> original.has_edge(a, b),
                self.keeps_cores_of(original),
                self.keeps_order_of(original),
            decreases degree_sum(self.adj()) + stack.len(),
        {
            let ghost before = *self;
            let ghost before_stack = stack@;
            let node = stack.pop().unwrap();
            proof {
                assert(stack@ == before_stack.drop_last());
                assert(before_stack.last() == node);
            }
            if self.adjacency[node].len() == 1 {
                let other = self.adjacency[node][0];
                proof {
                    assert(before.adj()[node as int] =~= seq![other]);
                }
                let kept = without(&self.adjacency[other], node);
                self.adjacency[node] = Vec::new();
                self.adjacency[other] = kept;
                proof {
                    let mid = before.adj().update(node as int, Seq::<usize>::empty());
                    let removed = remove_value(before.adj()[other as int], node);
                    assert(self.adj() =~= mid.update(other as int, removed));
                    lemma_removal_edges(*self, before, node, other);
                    lemma_removal_well_formed(*self, before, node, other);
                    assert forall|a: int, b: int| #[trigger] self.has_edge(a, b) implies original.has_edge(a, b) by {
                        assert(before.has_edge(a, b));
                    }
                    assert forall|h: Set<(int, int)>|
                        #[trigger] original.contains_edges(h) && is_undirected(h) && has_no_dangling(h)
                            implies self.contains_edges(h) by {
                        lemma_removal_keeps_core(*self, before, node, other, h);
                    }
                    lemma_removal_keeps_order(*self, before, original, node, other);
                    lemma_degree_sum_update(before.adj(), node as int, Seq::<usize>::empty());
                    lemma_degree_sum_update(mid, other as int, removed);
                    assert(before.adj()[other as int].contains(node)) by {
                        assert(before.has_edge(node as int, other as int));
                    }
                    lemma_remove_value_len(before.adj()[other as int], node);
                }
                let ghost popped_stack = stack@;
                if self.adjacency[other].len() == 1 {
                    stack.push(other);
                }
                proof {
                    assert forall|a: int| 0 <= a < n && (#[trigger] self.adj()[a]).len() == 1 implies stack@.contains(a as usize) by {
                        if a != other as int {
                            assert(self.adj()[a] == before.adj()[a]);
                            assert(before_stack.contains(a as usize));
                            let k = choose|k: int| 0 <= k < before_stack.len() && #[trigger] before_stack[k] == a as usize;
                            assert(popped_stack[k] == a as usize);
                            if self.adj()[other as int].len() == 1 {
                                lemma_push_contains(popped_stack, other, a as usize);
                            }
                        } else {
                            lemma_push_contains(popped_stack, other, a as usize);
                        }
                    }
                }
            } else {
                proof {
                    assert forall|a: int| 0 <= a < n && (#[trigger] self.adj()[a]).len() == 1 implies stack@.contains(a as usize) by {
                        assert(before_stack.contains(a as usize));
                        let k = choose|k: int| 0 <= k < before_stack.len() && #[trigger] before_stack[k] == a as usize;
                        assert(stack@[k] == a as usize);
                    }
                }
            }
        }
    }

    /// A graph keeps the order of its own neighbour lists.
    proof fn lemma_keeps_own_order(&self)
        requires
            self.well_formed(),
        ensures
            self.keeps_order_of(*self),
    {
        assert forall|a: int| 0 <= a < self.node_count() implies #[trigger] self.adj()[a] == neighbours_kept(
            *self,
            a,
            self.adj()[a],
        ) by {
            let s = self.adj()[a];
            assert forall|k: int| 0 <= k < s.len() implies self.has_edge(a, #[trigger] s[k] as int) by {
                assert(s[k] < self.node_count());
                assert(s.contains(s[k]));
            }
            lemma_kept_all(*self, a, s);
        }
    }

    /// Index of the first `x` in `s`, or 0 when `x` is absent.
    pub open spec fn position_or_zero(s: Seq<usize>, x: usize) -> int
        decreases s.len(),
    {
        if s.len() == 0 || s[0] == x {
            0
        } else if !s.drop_first().contains(x) {
            0
        } else {
            1 + Self::position_or_zero(s.drop_first(), x)
        }
    }

    /// The edge a face walk takes after arriving at `to` along `from -> to`:
    /// the neighbour just before `from` in `to`'s list (cyclically), which
    /// with counter-clockwise lists is the first one clockwise from the way
    /// the walk came, keeping the traced face on the left.
    pub fn next_half_edge(&self, edge: (usize, usize)) -> (next: (usize, usize))
        requires
            edge.1 < self.node_count(),
            self.adj()[edge.1 as int].len() > 0,
        ensures
            ({
                let nb = self.adj()[edge.1 as int];
                let p = Self::position_or_zero(nb, edge.0);
                next == (edge.1, nb[(p + nb.len() - 1) % (nb.len() as int)])
            }),
    {
        let previous = self.previous_position(edge);
        (edge.1, self.adjacency[edge.1][previous])
    }

    /// The position in `to`'s neighbour list of the entry just before `from`,
    /// cyclically (before the first entry when `from` is not there).
    pub fn previous_position(&self, edge: (usize, usize)) -> (previous: usize)
        requires
            edge.1 < self.node_count(),
            self.adj()[edge.1 as int].len() > 0,
        ensures
            ({
                let nb = self.adj()[edge.1 as int];
                let p = Self::position_or_zero(nb, edge.0);
                previous == (p + nb.len() - 1) % (nb.len() as int)
            }),
            previous < self.adj()[edge.1 as int].len(),
    {
        let (from, to) = edge;
        let neighbours = &self.adjacency[to];
        let ghost nb = neighbours@;
        let mut i: usize = 0;
        proof {
            assert(nb.skip(0) =~= nb);
        }
        while i < neighbours.len() && neighbours[i] != from
            invariant
                i <= neighbours.len(),
                nb == neighbours@,
                Self::position_or_zero(nb, from) == (if nb.skip(i as int).contains(from) {
                    i + Self::position_or_zero(nb.skip(i as int), from)
                } else {
                    0
                }),
            decreases neighbours.len() - i,
        {
            proof {
                let rest = nb.skip(i + 1);
                let here = nb.skip(i as int);
                assert(here.drop_first() =~= rest);
                assert(here[0] == nb[i as int]);
                if rest.contains(from) {
                    let k = choose|k: int| 0 <= k < rest.len() && #[trigger] rest[k] == from;
                    assert(here[k + 1] == from);
                }
                if here.contains(from) {
                    let k = choose|k: int| 0 <= k < here.len() && #[trigger] here[k] == from;
                    assert(k > 0);
                    assert(rest[k - 1] == from);
                }
            }
            i = i + 1;
        }
        let position = if i < neighbours.len() {
            proof {
                assert(nb.skip(i as int)[0] == from);
                assert(nb.skip(i as int).contains(from));
            }
            i
        } else {
            0
        };
        let len = neighbours.len();
        let previous = if position == 0 {
            len - 1
        } else {
            position - 1
        };
        proof {
            assert((position + len - 1) % (len as int) == previous) by (nonlinear_arith)
                requires
                    position < len,
                    previous == (if position == 0 {
                        len - 1
                    } else {
                        position - 1
                    }),
            ;
        }
        previous
    }

    /// Puts `order` in place of the neighbour list of `node`, when `node` is
    /// a node and `order` lists the same neighbours, each once; otherwise
    /// leaves the graph as it is. This is how the caller installs the
    /// counter-clockwise order it finds by angle before walking faces.
    pub fn set_neighbour_order(&mut self, node: usize, order: Vec<usize>) -> (done: bool)
        requires
            old(self).well_formed(),
        ensures
            final(self).well_formed(),
            done == (node < old(self).node_count() && same_members(order@, old(self).adj()[node as int])),
            done ==> final(self).adj() == old(self).adj().update(node as int, order@),
            !done ==> final(self).adj() == old(self).adj(),
    {
        if node >= self.adjacency.len() {
            return false;
        }
        let mut i: usize = 0;
        while i < order.len()
            invariant
                i <= order.len(),
                node < self.adjacency.len(),
                *self == *old(self),
                self.well_formed(),
                forall|a: int, b: int| 0 <= a < b < i ==> order@[a] != order@[b],
                forall|a: int| 0 <= a < i ==> self.adj()[node as int].contains(#[trigger] order@[a]),
            decreases order.len() - i,
        {
            if !contains(&self.adjacency[node], order[i]) {
                assert(order@.contains(order@[i as int]));
                return false;
            }
            let mut j: usize = 0;
            while j < i
                invariant
                    j <= i < order.len(),
                    *self == *old(self),
                    self.well_formed(),
                    forall|a: int| 0 <= a < j ==> order@[a] != order@[i as int],
                decreases i - j,
            {
                if order[j] == order[i] {
                    assert(!order@.no_duplicates());
                    return false;
                }
                j = j + 1;
            }
            i = i + 1;
        }
        let mut k: usize = 0;
        while k < self.adjacency[node].len()
            invariant
                k <= self.adjacency[node as int].len(),
                node < self.adjacency.len(),
                *self == *old(self),
                self.well_formed(),
                forall|a: int| 0 <= a < k ==> order@.contains(#[trigger] self.adj()[node as int][a]),
            decreases self.adjacency[node as int].len() - k,
        {
            if !contains(&order, self.adjacency[node][k]) {
                assert(self.adj()[node as int].contains(self.adj()[node as int][k as int]));
                return false;
            }
            k = k + 1;
        }
        let ghost before = self.adj();
        proof {
            assert(order@.no_duplicates());
            assert forall|x: usize| order@.contains(x) <==> before[node as int].contains(x) by {
                if before[node as int].contains(x) {
                    let q = choose|q: int| 0 <= q < before[node as int].len() && before[node as int][q] == x;
                    assert(order@.contains(before[node as int][q]));
                }
            }
        }
        self.adjacency.set(node, order);
        proof {
            assert(self.adj() =~= before.update(node as int, order@));
            let after = self.adj();
            assert forall|a: int, q: int|
                0 <= a < self.node_count() && 0 <= q < after[a].len() implies (#[trigger] after[a][q])
                    < self.node_count() && after[a][q] != a by {
                if a == node {
                    assert(before[a].contains(after[a][q]));
                } else {
                    assert(after[a] == before[a]);
                }
            }
            assert forall|a: int| 0 <= a < self.node_count() implies (#[trigger] after[a]).no_duplicates() by {
                if a != node {
                    assert(after[a] == before[a]);
                }
            }
            assert forall|x: int, y: int| #[trigger] self.has_edge(x, y) implies self.has_edge(y, x) by {
                assert(after[x].contains(y as usize) == before[x].contains(y as usize));
                assert(old(self).has_edge(x, y));
                assert(old(self).has_edge(y, x));
                assert(after[y].contains(x as usize) == before[y].contains(x as usize));
            }
        }
        true
    }
}

/// `a` lists the members of `b`, each once.
pub open spec fn same_members(a: Seq<usize>, b: Seq<usize>) -> bool {
    &&& a.no_duplicates()
    &&& forall|x: usize| #[trigger] a.contains(x) <==> b.contains(x)
}

pub(crate) proof fn lemma_push_contains(s: Seq<usize>, v: usize, x: usize)
    ensures
        s.push(v).contains(x) <==> (s.contains(x) || x == v),
{
    if s.push(v).contains(x) && x != v {
        let k = choose|k: int| 0 <= k < s.push(v).len() && #[trigger] s.push(v)[k] == x;
        assert(k < s.len());
        assert(s[k] == x);
    }
    if s.contains(x) {
        let k = choose|k: int| 0 <= k < s.len() && #[trigger] s[k] == x;
        assert(s.push(v)[k] == x);
    }
    if x == v {
        assert(s.push(v)[s.len() as int] == x);
    }
}

/// `h` lists every pair in both directions.
pub open spec fn is_undirected(h: Set<(int, int)>) -> bool {
    forall|e: (int, int)| #[trigger] h.contains(e) ==> h.contains((e.1, e.0))
}

/// In `h`, every node that has a neighbour has at least two.
#[verifier::opaque]
pub open spec fn has_no_dangling(h: Set<(int, int)>) -> bool {
    forall|e: (int, int)| #[trigger] h.contains(e) ==> exists|w: int| w != e.1 && #[trigger] h.contains((e.0, w))
}

/// Total length of all neighbour lists: twice the number of edges.
pub open spec fn degree_sum(adj: Seq<Seq<usize>>) -> nat
    decreases adj.len(),
{
    if adj.len() == 0 {
        0
    } else {
        degree_sum(adj.drop_last()) + adj.last().len()
    }
}

proof fn lemma_degree_sum_update(adj: Seq<Seq<usize>>, i: int, s: Seq<usize>)
    requires
        0 <= i < adj.len(),
    ensures
        degree_sum(adj.update(i, s)) + adj[i].len() == degree_sum(adj) + s.len(),
    decreases adj.len(),
{
    if i < adj.len() - 1 {
        assert(adj.update(i, s).drop_last() =~= adj.drop_last().update(i, s));
        lemma_degree_sum_update(adj.drop_last(), i, s);
    } else {
        assert(adj.update(i, s).drop_last() =~= adj.drop_last());
    }
}

/// Pruning leaves a graph in which no node has a single neighbour exactly as
/// it was.
pub proof fn law_prune_keeps_clean_graph(original: Graph, pruned: Graph)
    requires
        original.well_formed(),
        original.no_dangling_nodes(),
        pruned.is_pruned_from(original),
    ensures
        pruned.adj() == original.adj(),
{
    let h = Set::new(|e: (int, int)| original.has_edge(e.0, e.1));
    assert(is_undirected(h));
    assert(has_no_dangling(h)) by {
        reveal(has_no_dangling);
        assert forall|e: (int, int)| #[trigger] h.contains(e) implies exists|w: int| w != e.1 && #[trigger] h.contains((e.0, w)) by {
            let nb = original.adj()[e.0];
            assert(nb.contains(e.1 as usize));
            let k = choose|k: int| 0 <= k < nb.len() && nb[k] == e.1 as usize;
            assert(nb.len() != 1);
            let j = if k == 0 {
                1int
            } else {
                0int
            };
            assert(nb[j] != nb[k]);
            let w = nb[j] as int;
            assert(nb[j] < original.node_count());
            assert(nb.contains(nb[j]));
            assert(original.has_edge(e.0, w));
            assert(h.contains((e.0, w)));
        }
    }
    assert(original.contains_edges(h));
    assert(pruned.contains_edges(h));
    assert forall|a: int| 0 <= a < pruned.node_count() implies #[trigger] pruned.adj()[a] == original.adj()[a] by {
        let s = original.adj()[a];
        assert forall|k: int| 0 <= k < s.len() implies pruned.has_edge(a, #[trigger] s[k] as int) by {
            assert(s.contains(s[k]));
            assert(s[k] < original.node_count());
            assert(h.contains((a, s[k] as int)));
        }
        lemma_kept_all(pruned, a, s);
    }
    assert(pruned.adj() =~= original.adj());
}

/// Pruning twice leaves what pruning once left.
pub proof fn law_prune_idempotent(original: Graph, once: Graph, twice: Graph)
    requires
        once.is_pruned_from(original),
        twice.is_pruned_from(once),
    ensures
        twice.adj() == once.adj(),
{
    law_prune_keeps_clean_graph(once, twice);
}

/// The entries `b` of `s` for which `g` has the edge from `a` to `b`, in
/// their order in `s`.
pub open spec fn neighbours_kept(g: Graph, a: int, s: Seq<usize>) -> Seq<usize>
    decreases s.len(),
{
    if s.len() == 0 {
        s
    } else {
        let rest = neighbours_kept(g, a, s.drop_last());
        if g.has_edge(a, s.last() as int) {
            rest.push(s.last())
        } else {
            rest
        }
    }
}

/// `s` without the value `x`, order kept.
pub open spec fn remove_value(s: Seq<usize>, x: usize) -> Seq<usize>
    decreases s.len(),
{
    if s.len() == 0 {
        s
    } else {
        let rest = remove_value(s.drop_last(), x);
        if s.last() != x {
            rest.push(s.last())
        } else {
            rest
        }
    }
}

/// `after` is `before` with the edge between `node` (whose only neighbour is
/// `other`) and `other` taken out of both lists.
spec fn removes_edge(after: Graph, before: Graph, node: usize, other: usize) -> bool {
    &&& node < before.node_count()
    &&& before.adj()[node as int] == seq![other]
    &&& after.node_count() == before.node_count()
    &&& after.adj() == before.adj().update(node as int, Seq::<usize>::empty()).update(
        other as int,
        remove_value(before.adj()[other as int], node),
    )
}

/// The edges left are those of `before` other than the one taken out.
spec fn edges_after_removal(after: Graph, before: Graph, node: usize, other: usize) -> bool {
    forall|a: int, b: int|
        #[trigger] after.has_edge(a, b) <==> (before.has_edge(a, b) && !((a == node && b == other) || (a
            == other && b == node)))
}

proof fn lemma_removal_edges(after: Graph, before: Graph, node: usize, other: usize)
    requires
        before.well_formed(),
        removes_edge(after, before, node, other),
    ensures
        other < before.node_count(),
        other != node,
        edges_after_removal(after, before, node, other),
{
    let n = before.node_count();
    assert(before.adj()[node as int][0] == other);
    let old_other = before.adj()[other as int];
    assert forall|a: int, b: int| #[trigger] after.has_edge(a, b) <==> (before.has_edge(a, b) && !((a
        == node && b == other) || (a == other && b == node))) by {
        if 0 <= a < n && 0 <= b < n {
            if a == node {
                assert(after.adj()[a] =~= Seq::<usize>::empty());
                if before.has_edge(a, b) {
                    let k = choose|k: int| 0 <= k < before.adj()[a].len() && #[trigger] before.adj()[a][k] == b as usize;
                    assert(k == 0);
                }
            } else if a == other {
                assert(after.adj()[a] == remove_value(old_other, node));
                lemma_remove_value_contains(old_other, node, b as usize);
            } else {
                assert(after.adj()[a] == before.adj()[a]);
            }
        }
    }
}

proof fn lemma_removal_well_formed(after: Graph, before: Graph, node: usize, other: usize)
    requires
        before.well_formed(),
        removes_edge(after, before, node, other),
        other < before.node_count(),
        other != node,
        edges_after_removal(after, before, node, other),
    ensures
        after.well_formed(),
{
    let old_other = before.adj()[other as int];
    assert forall|a: int, b: int| #[trigger] after.has_edge(a, b) implies after.has_edge(b, a) by {
        assert(before.has_edge(a, b));
        assert(before.has_edge(b, a));
    }
    assert forall|a: int, k: int|
        0 <= a < after.node_count() && 0 <= k < after.adj()[a].len() implies (#[trigger] after.adj()[a][k])
        < after.node_count() && after.adj()[a][k] != a by {
        let y = after.adj()[a][k];
        if a == other {
            assert(after.adj()[a] == remove_value(old_other, node));
            assert(after.adj()[a].contains(y));
            lemma_remove_value_contains(old_other, node, y);
            let j = choose|j: int| 0 <= j < old_other.len() && #[trigger] old_other[j] == y;
        } else if a != node {
            assert(after.adj()[a] == before.adj()[a]);
            assert(before.adj()[a][k] == y);
        }
    }
    assert forall|a: int| 0 <= a < after.node_count() implies (#[trigger] after.adj()[a]).no_duplicates() by {
        if a == other {
            lemma_remove_value_no_duplicates(old_other, node);
        } else if a != node {
            assert(after.adj()[a] == before.adj()[a]);
        }
    }
}

proof fn lemma_no_dangling_at(h: Set<(int, int)>, a: int, b: int)
    requires
        has_no_dangling(h),
        h.contains((a, b)),
    ensures
        exists|w: int| w != b && #[trigger] h.contains((a, w)),
{
    reveal(has_no_dangling);
}

/// An edge set in which no node has a single neighbour cannot hold the edge
/// of a node that has only one, so taking that edge out keeps it whole.
proof fn lemma_removal_keeps_core(after: Graph, before: Graph, node: usize, other: usize, h: Set<(int, int)>)
    requires
        removes_edge(after, before, node, other),
        edges_after_removal(after, before, node, other),
        before.contains_edges(h),
        is_undirected(h),
        has_no_dangling(h),
    ensures
        after.contains_edges(h),
{
    assert(!h.contains((node as int, other as int))) by {
        if h.contains((node as int, other as int)) {
            lemma_no_dangling_at(h, node as int, other as int);
            let w = choose|w: int| w != other && #[trigger] h.contains((node as int, w));
            assert(before.has_edge(node as int, w));
            let k = choose|k: int|
                0 <= k < before.adj()[node as int].len() && #[trigger] before.adj()[node as int][k] == w as usize;
            assert(k == 0);
        }
    }
    assert(!h.contains((other as int, node as int)));
    assert forall|e: (int, int)| #[trigger] h.contains(e) implies after.has_edge(e.0, e.1) by {
        assert(before.has_edge(e.0, e.1));
        assert(e != (node as int, other as int));
        assert(e != (other as int, node as int));
    }
}

proof fn lemma_removal_keeps_order(after: Graph, before: Graph, original: Graph, node: usize, other: usize)
    requires
        removes_edge(after, before, node, other),
        other < before.node_count(),
        other != node,
        edges_after_removal(after, before, node, other),
        before.node_count() == original.node_count(),
        before.keeps_order_of(original),
    ensures
        after.keeps_order_of(original),
{
    assert forall|a: int| 0 <= a < after.node_count() implies #[trigger] after.adj()[a] == neighbours_kept(
        after,
        a,
        original.adj()[a],
    ) by {
        let s = original.adj()[a];
        assert(before.adj()[a] == neighbours_kept(before, a, s));
        if a == node {
            assert forall|k: int| 0 <= k < s.len() implies !after.has_edge(a, #[trigger] s[k] as int) by {
                assert(after.adj()[a] =~= Seq::<usize>::empty());
            }
            lemma_kept_none(after, a, s);
            assert(after.adj()[a] =~= Seq::<usize>::empty());
        } else if a == other {
            assert forall|k: int| 0 <= k < s.len() implies after.has_edge(a, #[trigger] s[k] as int) == (
            before.has_edge(a, s[k] as int) && s[k] != node) by {}
            lemma_kept_remove(before, after, a, s, node);
        } else {
            assert(after.adj()[a] == before.adj()[a]);
            assert forall|k: int| 0 <= k < s.len() implies after.has_edge(a, #[trigger] s[k] as int) == before.has_edge(
                a,
                s[k] as int,
            ) by {}
            lemma_kept_ext(before, after, a, s);
        }
    }
}

proof fn lemma_kept_all(g: Graph, a: int, s: Seq<usize>)
    requires
        forall|k: int| 0 <= k < s.len() ==> g.has_edge(a, #[trigger] s[k] as int),
    ensures
        neighbours_kept(g, a, s) == s,
    decreases s.len(),
{
    if s.len() > 0 {
        let rest = s.drop_last();
        assert forall|k: int| 0 <= k < rest.len() implies g.has_edge(a, #[trigger] rest[k] as int) by {
            assert(rest[k] == s[k]);
        }
        lemma_kept_all(g, a, rest);
        assert(g.has_edge(a, s[s.len() - 1] as int));
        assert(rest.push(s.last()) =~= s);
    }
}

proof fn lemma_kept_none(g: Graph, a: int, s: Seq<usize>)
    requires
        forall|k: int| 0 <= k < s.len() ==> !g.has_edge(a, #[trigger] s[k] as int),
    ensures
        neighbours_kept(g, a, s) == Seq::<usize>::empty(),
    decreases s.len(),
{
    if s.len() > 0 {
        let rest = s.drop_last();
        assert forall|k: int| 0 <= k < rest.len() implies !g.has_edge(a, #[trigger] rest[k] as int) by {
            assert(rest[k] == s[k]);
        }
        lemma_kept_none(g, a, rest);
        assert(!g.has_edge(a, s[s.len() - 1] as int));
    } else {
        assert(s =~= Seq::<usize>::empty());
    }
}

proof fn lemma_kept_ext(g: Graph, h: Graph, a: int, s: Seq<usize>)
    requires
        forall|k: int| 0 <= k < s.len() ==> h.has_edge(a, #[trigger] s[k] as int) == g.has_edge(a, s[k] as int),
    ensures
        neighbours_kept(h, a, s) == neighbours_kept(g, a, s),
    decreases s.len(),
{
    if s.len() > 0 {
        let rest = s.drop_last();
        assert forall|k: int| 0 <= k < rest.len() implies h.has_edge(a, #[trigger] rest[k] as int) == g.has_edge(
            a,
            rest[k] as int,
        ) by {
            assert(rest[k] == s[k]);
        }
        lemma_kept_ext(g, h, a, rest);
        assert(h.has_edge(a, s[s.len() - 1] as int) == g.has_edge(a, s[s.len() - 1] as int));
    }
}

/// Keeping the edges of `h` is keeping those of `g` and then dropping `x`,
/// when `h` has exactly the edges of `g` other than those to `x`.
proof fn lemma_kept_remove(g: Graph, h: Graph, a: int, s: Seq<usize>, x: usize)
    requires
        forall|k: int|
            0 <= k < s.len() ==> h.has_edge(a, #[trigger] s[k] as int) == (g.has_edge(a, s[k] as int) && s[k]
                != x),
    ensures
        remove_value(neighbours_kept(g, a, s), x) == neighbours_kept(h, a, s),
    decreases s.len(),
{
    if s.len() > 0 {
        let rest = s.drop_last();
        let last = s.last();
        assert forall|k: int| 0 <= k < rest.len() implies h.has_edge(a, #[trigger] rest[k] as int) == (g.has_edge(
            a,
            rest[k] as int,
        ) && rest[k] != x) by {
            assert(rest[k] == s[k]);
        }
        lemma_kept_remove(g, h, a, rest, x);
        assert(h.has_edge(a, s[s.len() - 1] as int) == (g.has_edge(a, s[s.len() - 1] as int) && s[s.len() - 1]
            != x));
        let kg = neighbours_kept(g, a, rest);
        if g.has_edge(a, last as int) {
            assert(kg.push(last).drop_last() =~= kg);
        }
    } else {
        assert(neighbours_kept(g, a, s) == s);
    }
}

proof fn lemma_remove_value_contains(s: Seq<usize>, x: usize, y: usize)
    ensures
        remove_value(s, x).contains(y) <==> (s.contains(y) && y != x),
    decreases s.len(),
{
    if s.len() > 0 {
        let rest = s.drop_last();
        let r = remove_value(rest, x);
        lemma_remove_value_contains(rest, x, y);
        if s.last() != x {
            lemma_push_contains(r, s.last(), y);
        }
        assert(rest.push(s.last()) =~= s);
        lemma_push_contains(rest, s.last(), y);
    }
}

proof fn lemma_remove_value_no_duplicates(s: Seq<usize>, x: usize)
    requires
        s.no_duplicates(),
    ensures
        remove_value(s, x).no_duplicates(),
    decreases s.len(),
{
    if s.len() > 0 {
        let rest = s.drop_last();
        let last = s.last();
        assert(rest.no_duplicates()) by {
            assert forall|i: int, j: int| 0 <= i < rest.len() && 0 <= j < rest.len() && i != j implies rest[i]
                != rest[j] by {
                assert(rest[i] == s[i] && rest[j] == s[j]);
            }
        }
        lemma_remove_value_no_duplicates(rest, x);
        if last != x {
            let r = remove_value(rest, x);
            assert(!r.contains(last)) by {
                lemma_remove_value_contains(rest, x, last);
                if rest.contains(last) {
                    let k = choose|k: int| 0 <= k < rest.len() && #[trigger] rest[k] == last;
                    assert(s[k] == s[s.len() - 1]);
                }
            }
            assert forall|i: int, j: int|
                0 <= i < r.push(last).len() && 0 <= j < r.push(last).len() && i != j implies r.push(last)[i]
                != r.push(last)[j] by {
                if j == r.len() {
                    assert(r.contains(r[i]));
                } else if i == r.len() {
                    assert(r.contains(r[j]));
                }
            }
        }
    }
}

/// Removing a value that occurs once (in a list without repeats) shortens
/// the list by one.
proof fn lemma_remove_value_len(s: Seq<usize>, x: usize)
    requires
        s.no_duplicates(),
        s.contains(x),
    ensures
        remove_value(s, x).len() + 1 == s.len(),
    decreases s.len(),
{
    let rest = s.drop_last();
    assert(rest.no_duplicates()) by {
        assert forall|i: int, j: int| 0 <= i < rest.len() && 0 <= j < rest.len() && i != j implies rest[i]
            != rest[j] by {
            assert(rest[i] == s[i] && rest[j] == s[j]);
        }
    }
    if s.last() == x {
        assert forall|k: int| 0 <= k < rest.len() implies #[trigger] rest[k] != x by {
            assert(rest[k] == s[k]);
            assert(s[k] != s[s.len() - 1]);
        }
        lemma_remove_value_absent(rest, x);
    } else {
        assert(rest.contains(x)) by {
            let k = choose|k: int| 0 <= k < s.len() && #[trigger] s[k] == x;
            assert(k < s.len() - 1);
            assert(rest[k] == x);
        }
        lemma_remove_value_len(rest, x);
    }
}

proof fn lemma_remove_value_absent(s: Seq<usize>, x: usize)
    requires
        forall|k: int| 0 <= k < s.len() ==> #[trigger] s[k] != x,
    ensures
        remove_value(s, x) == s,
    decreases s.len(),
{
    if s.len() > 0 {
        let rest = s.drop_last();
        assert forall|k: int| 0 <= k < rest.len() implies #[trigger] rest[k] != x by {
            assert(rest[k] == s[k]);
        }
        lemma_remove_value_absent(rest, x);
        assert(s[s.len() - 1] != x);
        assert(rest.push(s.last()) =~= s);
    }
}

/// `v` without the value `x`, order kept.
fn without(v: &Vec<usize>, x: usize) -> (r: Vec<usize>)
    ensures
        r@ == remove_value(v@, x),
{
    let mut r: Vec<usize> = Vec::new();
    let mut i: usize = 0;
    proof {
        assert(v@.take(0) =~= Seq::<usize>::empty());
    }
    while i < v.len()
        invariant
            i <= v.len(),
            r@ == remove_value(v@.take(i as int), x),
        decreases v.len() - i,
    {
        proof {
            assert(v@.take(i + 1).drop_last() =~= v@.take(i as int));
        }
        if v[i] != x {
            r.push(v[i]);
        }
        i = i + 1;
    }
    proof {
        assert(v@.take(i as int) =~= v@);
    }
    r
}

/// Whether `x` occurs in `v`.
fn contains(v: &Vec<usize>, x: usize) -> (r: bool)
    ensures
        r == v@.contains(x),
{
    let mut i: usize = 0;
    while i < v.len()
        invariant
            i <= v.len(),
            forall|k: int| 0 <= k < i ==> v@[k] != x,
        decreases v.len() - i,
    {
        if v[i] == x {
            return true;
        }
        i = i + 1;
    }
    false
}

} // verus!
