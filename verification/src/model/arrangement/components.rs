//! Connected components of the welded graph.
//!
//! Each connected component of the arrangement walks out exactly one
//! clockwise cycle, its outer boundary; telling components apart is what lets
//! that boundary be matched to the face of another component that encloses it.
use vstd::prelude::*;
use super::Graph;

verus! {

/// How many entries of `labels` are still unlabelled.
pub open spec fn unlabelled_count(labels: Seq<usize>) -> nat
    decreases labels.len(),
{
    if labels.len() == 0 {
        0
    } else {
        unlabelled_count(labels.drop_last()) + if labels.last() == usize::MAX {
            1nat
        } else {
            0nat
        }
    }
}

proof fn lemma_unlabelled_count_set(labels: Seq<usize>, i: int, x: usize)
    requires
        0 <= i < labels.len(),
        labels[i] == usize::MAX,
        x != usize::MAX,
    ensures
        unlabelled_count(labels.update(i, x)) + 1 == unlabelled_count(labels),
    decreases labels.len(),
{
    if i < labels.len() - 1 {
        assert(labels.update(i, x).drop_last() =~= labels.drop_last().update(i, x));
        lemma_unlabelled_count_set(labels.drop_last(), i, x);
    } else {
        assert(labels.update(i, x).drop_last() =~= labels.drop_last());
    }
}

impl Graph {
    /// A walk along edges of the graph: one or more nodes, each consecutive
    /// pair joined by an edge.
    pub open spec fn is_path(&self, p: Seq<int>) -> bool {
        &&& p.len() > 0
        &&& forall|i: int| 0 <= i < p.len() ==> 0 <= #[trigger] p[i] < self.node_count()
        &&& forall|i: int| 0 <= i < p.len() - 1 ==> #[trigger] self.has_edge(p[i], p[i + 1])
    }

    /// Whether a walk leads from `a` to `b`.
    #[verifier::opaque]
    pub open spec fn connected(&self, a: int, b: int) -> bool {
        exists|p: Seq<int>| #[trigger] self.is_path(p) && p[0] == a && p.last() == b
    }

    /// Whether `a` is the lowest-numbered node of its component.
    pub open spec fn is_first(&self, a: int) -> bool {
        forall|j: int| 0 <= j < a ==> !#[trigger] self.connected(j, a)
    }

    /// How many nodes below `a` are the lowest-numbered of their component:
    /// the number of components met before `a` when nodes are taken in order.
    pub open spec fn firsts_before(&self, a: int) -> nat
        decreases a,
    {
        if a <= 0 {
            0
        } else {
            self.firsts_before(a - 1) + if self.is_first(a - 1) {
                1nat
            } else {
                0nat
            }
        }
    }

    /// Which connected component each node belongs to. Components are
    /// numbered from 0 in the order of their lowest-numbered node; nodes left
    /// isolated by pruning get a component of their own.
    pub fn components(&self) -> (labels: Vec<usize>)
        requires
            self.well_formed(),
        ensures
            labels@.len() == self.node_count(),
            forall|a: int, b: int|
                0 <= a < self.node_count() && 0 <= b < self.node_count() ==> (labels@[a] == labels@[b]
                    <==> #[trigger] self.connected(a, b)),
            forall|a: int|
                0 <= a < self.node_count() && #[trigger] self.is_first(a) ==> labels@[a] == self.firsts_before(a),
    {
        let n = self.adjacency.len();
        let mut labels: Vec<usize> = Vec::new();
        while labels.len() < n
            invariant
                labels.len() <= n,
                forall|v: int| 0 <= v < labels.len() ==> #[trigger] labels@[v] == usize::MAX,
            decreases n - labels.len(),
        {
            labels.push(usize::MAX);
        }
        let mut next: usize = 0;
        let mut start: usize = 0;
        proof {
            reveal(Graph::labels_closed);
            reveal(Graph::labels_match);
            reveal(Graph::labels_reached);
            reveal(Graph::labels_numbered);
        }
        while start < n
            invariant
                n == self.node_count(),
                self.well_formed(),
                labels.len() == n,
                start <= n,
                next == self.firsts_before(start as int),
                next <= start,
                forall|v: int| 0 <= v < n && #[trigger] labels@[v] != usize::MAX ==> labels@[v] < next,
                forall|s: int| 0 <= s < start ==> #[trigger] labels@[s] != usize::MAX,
                self.labels_closed(labels@),
                self.labels_match(labels@),
                self.labels_reached(labels@, start as int),
                self.labels_numbered(labels@),
            decreases n - start,
        {
            if labels[start] == usize::MAX {
                proof {
                    reveal(Graph::labels_closed);
                    assert forall|j: int| 0 <= j < start implies !#[trigger] self.connected(j, start as int) by {
                        assert(labels@[j] != usize::MAX);
                    }
                }
                let ghost pre = labels@;
                self.label_component(&mut labels, start, next);
                proof {
                    let post = labels@;
                    self.lemma_connected_refl(start as int);
                    assert(post[start as int] == next);
                    self.lemma_after_labelling_closed(pre, post, start as int, next);
                    self.lemma_after_labelling_match(pre, post, start as int, next);
                    self.lemma_after_labelling_reached(pre, post, start as int, next);
                    self.lemma_after_labelling_numbered(pre, post, start as int, next);
                    assert forall|s: int| 0 <= s < start + 1 implies #[trigger] post[s] != usize::MAX by {
                        if s < start {
                            assert(pre[s] != usize::MAX);
                        }
                    }
                }
                next = next + 1;
            } else {
                proof {
                    reveal(Graph::labels_reached);
                    assert(labels@[start as int] != usize::MAX);
                    let s = choose|s: int| 0 <= s < start && #[trigger] self.connected(s, start as int);
                    assert(!self.is_first(start as int));
                }
            }
            start = start + 1;
        }
        proof {
            reveal(Graph::labels_match);
            reveal(Graph::labels_numbered);
        }
        labels
    }

    /// `post` is `pre` with every unlabelled node connected to `start` given
    /// `label`.
    spec fn relabels(&self, pre: Seq<usize>, post: Seq<usize>, start: int, label: usize) -> bool {
        &&& pre.len() == self.node_count()
        &&& post.len() == self.node_count()
        &&& forall|v: int|
            0 <= v < self.node_count() ==> #[trigger] post[v] == if pre[v] != usize::MAX {
                pre[v]
            } else if self.connected(start, v) {
                label
            } else {
                usize::MAX
            }
    }

    /// Whether the labelled nodes of `labels` are closed under connection.
    #[verifier::opaque]
    spec fn labels_closed(&self, labels: Seq<usize>) -> bool {
        forall|v: int, w: int|
            0 <= v < self.node_count() && 0 <= w < self.node_count() && labels[v] != usize::MAX
                && #[trigger] self.connected(v, w) ==> labels[w] != usize::MAX
    }

    /// Whether two labelled nodes share a label exactly when connected.
    #[verifier::opaque]
    spec fn labels_match(&self, labels: Seq<usize>) -> bool {
        forall|v: int, w: int|
            0 <= v < self.node_count() && 0 <= w < self.node_count() && labels[v] != usize::MAX && labels[w]
                != usize::MAX ==> (labels[v] == labels[w] <==> #[trigger] self.connected(v, w))
    }

    /// Whether each labelled node is reached from a node below `start`.
    #[verifier::opaque]
    spec fn labels_reached(&self, labels: Seq<usize>, start: int) -> bool {
        forall|v: int|
            0 <= v < self.node_count() && #[trigger] labels[v] != usize::MAX ==> exists|s: int|
                0 <= s < start && #[trigger] self.connected(s, v)
    }

    /// Whether each labelled node that is first in its component carries the
    /// number of components met before it.
    #[verifier::opaque]
    spec fn labels_numbered(&self, labels: Seq<usize>) -> bool {
        forall|v: int|
            0 <= v < self.node_count() && labels[v] != usize::MAX && #[trigger] self.is_first(v) ==> labels[v]
                == self.firsts_before(v)
    }

    proof fn lemma_after_labelling_closed(&self, pre: Seq<usize>, post: Seq<usize>, start: int, label: usize)
        requires
            self.relabels(pre, post, start, label),
            self.labels_closed(pre),
            label < usize::MAX,
        ensures
            self.labels_closed(post),
    {
        reveal(Graph::labels_closed);
        let n = self.node_count();
        assert forall|v: int, w: int|
            0 <= v < n && 0 <= w < n && post[v] != usize::MAX && #[trigger] self.connected(v, w) implies post[w]
            != usize::MAX by {
            if pre[v] == usize::MAX {
                self.lemma_connected_transitive(start, v, w);
            }
        }
    }

    proof fn lemma_after_labelling_match(&self, pre: Seq<usize>, post: Seq<usize>, start: int, label: usize)
        requires
            self.well_formed(),
            self.relabels(pre, post, start, label),
            forall|v: int| 0 <= v < self.node_count() && #[trigger] pre[v] != usize::MAX ==> pre[v] < label,
            self.labels_closed(pre),
            self.labels_match(pre),
            label < usize::MAX,
        ensures
            self.labels_match(post),
    {
        reveal(Graph::labels_closed);
        reveal(Graph::labels_match);
        let n = self.node_count();
        assert forall|v: int, w: int|
            0 <= v < n && 0 <= w < n && post[v] != usize::MAX && post[w] != usize::MAX implies (post[v]
            == post[w] <==> #[trigger] self.connected(v, w)) by {
            if pre[v] == usize::MAX && pre[w] == usize::MAX {
                self.lemma_connected_symmetric(start, v);
                self.lemma_connected_transitive(v, start, w);
            } else if pre[v] == usize::MAX {
                if self.connected(v, w) {
                    self.lemma_connected_symmetric(v, w);
                }
            }
        }
    }

    proof fn lemma_after_labelling_reached(&self, pre: Seq<usize>, post: Seq<usize>, start: int, label: usize)
        requires
            self.relabels(pre, post, start, label),
            self.labels_reached(pre, start),
            label < usize::MAX,
            0 <= start,
        ensures
            self.labels_reached(post, start + 1),
    {
        reveal(Graph::labels_reached);
        let n = self.node_count();
        assert forall|v: int|
            0 <= v < n && #[trigger] post[v] != usize::MAX implies exists|s: int|
                0 <= s < start + 1 && #[trigger] self.connected(s, v) by {
            if pre[v] != usize::MAX {
                let s = choose|s: int| 0 <= s < start && #[trigger] self.connected(s, v);
                assert(0 <= s < start + 1 && self.connected(s, v));
            } else {
                assert(post[v] == label);
                assert(0 <= start < start + 1 && self.connected(start, v));
            }
        }
    }

    proof fn lemma_after_labelling_numbered(&self, pre: Seq<usize>, post: Seq<usize>, start: int, label: usize)
        requires
            self.relabels(pre, post, start, label),
            0 <= start < self.node_count(),
            label == self.firsts_before(start),
            label < usize::MAX,
            forall|s: int| 0 <= s < start ==> #[trigger] pre[s] != usize::MAX,
            self.labels_numbered(pre),
        ensures
            self.labels_numbered(post),
    {
        reveal(Graph::labels_numbered);
        let n = self.node_count();
        assert forall|v: int|
            0 <= v < n && post[v] != usize::MAX && #[trigger] self.is_first(v) implies post[v]
                == self.firsts_before(v) by {
            if pre[v] == usize::MAX && v != start {
                assert(self.connected(start, v));
                if v < start {
                    assert(pre[v] != usize::MAX);
                }
                assert(!self.is_first(v));
            }
        }
    }

    /// Gives every node connected to `start` the label `label`, by a depth
    /// first walk. `start` is unlabelled, and so, therefore, is the rest of
    /// its component.
    fn label_component(&self, labels: &mut Vec<usize>, start: usize, label: usize)
        requires
            self.well_formed(),
            old(labels).len() == self.node_count(),
            start < self.node_count(),
            label < usize::MAX,
            old(labels)@[start as int] == usize::MAX,
            forall|v: int| 0 <= v < self.node_count() && #[trigger] old(labels)@[v] != usize::MAX ==> old(labels)@[v] < label,
            self.labels_closed(old(labels)@),
        ensures
            self.relabels(old(labels)@, final(labels)@, start as int, label),
    {
        let ghost before = labels@;
        let ghost n = self.node_count();
        proof {
            reveal(Graph::labels_closed);
            assert forall|v: int| 0 <= v < n && #[trigger] before[v] != usize::MAX implies !self.connected(
                start as int,
                v,
            ) by {
                if self.connected(start as int, v) {
                    self.lemma_connected_symmetric(start as int, v);
                }
            }
            self.lemma_connected_refl(start as int);
            lemma_unlabelled_count_set(labels@, start as int, label);
        }
        labels.set(start, label);
        let mut stack: Vec<usize> = Vec::new();
        stack.push(start);
        proof {
            assert(stack@[0] == start);
            assert forall|v: int| 0 <= v < n && labels@[v] == label && before[v] == usize::MAX implies v == start by {}
        }
        while stack.len() > 0
            invariant
                self.well_formed(),
                n == self.node_count(),
                labels.len() == n,
                before.len() == n,
                start < n,
                label < usize::MAX,
                labels@[start as int] == label,
                forall|v: int| 0 <= v < n && #[trigger] before[v] != usize::MAX ==> !self.connected(start as int, v),
                forall|v: int| 0 <= v < n && #[trigger] before[v] != usize::MAX ==> before[v] < label,
                forall|v: int|
                    0 <= v < n ==> #[trigger] labels@[v] == before[v] || (before[v] == usize::MAX && labels@[v]
                        == label),
                forall|v: int| 0 <= v < n && #[trigger] labels@[v] == label && before[v] == usize::MAX ==> self.connected(start as int, v),
                forall|k: int| 0 <= k < stack.len() ==> #[trigger] stack@[k] < n,
                forall|k: int| 0 <= k < stack.len() ==> labels@[#[trigger] stack@[k] as int] == label,
                forall|v: int, w: int|
                    0 <= v < n && labels@[v] == label && before[v] == usize::MAX && !stack@.contains(v as usize)
                        && #[trigger] self.has_edge(v, w) ==> labels@[w] == label,
            decreases unlabelled_count(labels@), stack.len(),
        {
            let ghost popped_from = stack@;
            let node = stack.pop().unwrap();
            proof {
                assert(popped_from.last() == node);
                assert(stack@ =~= popped_from.drop_last());
                assert(popped_from =~= stack@.push(node));
                assert(labels@[node as int] == label);
                assert(before[node as int] == usize::MAX);
                assert(self.connected(start as int, node as int));
                assert forall|v: int, w: int|
                    0 <= v < n && v != node && labels@[v] == label && before[v] == usize::MAX && !stack@.contains(v as usize)
                        && #[trigger] self.has_edge(v, w) implies labels@[w] == label by {
                    super::lemma_push_contains(stack@, node, v as usize);
                }
            }
            let ghost count_at_pop = unlabelled_count(labels@);
            let ghost len_at_pop = stack.len();
            let neighbours = &self.adjacency[node];
            let mut k: usize = 0;
            while k < neighbours.len()
                invariant
                    self.well_formed(),
                    n == self.node_count(),
                    node < n,
                    neighbours@ == self.adj()[node as int],
                    k <= neighbours.len(),
                    start < n,
                    labels.len() == n,
                    before.len() == n,
                    label < usize::MAX,
                    labels@[start as int] == label,
                    labels@[node as int] == label,
                    self.connected(start as int, node as int),
                    forall|v: int| 0 <= v < n && #[trigger] before[v] != usize::MAX ==> !self.connected(start as int, v),
                    forall|v: int| 0 <= v < n && #[trigger] before[v] != usize::MAX ==> before[v] < label,
                    forall|v: int|
                        0 <= v < n ==> #[trigger] labels@[v] == before[v] || (before[v] == usize::MAX && labels@[v]
                            == label),
                    forall|v: int| 0 <= v < n && #[trigger] labels@[v] == label && before[v] == usize::MAX ==> self.connected(start as int, v),
                    forall|j: int| 0 <= j < stack.len() ==> #[trigger] stack@[j] < n,
                    forall|j: int| 0 <= j < stack.len() ==> labels@[#[trigger] stack@[j] as int] == label,
                    forall|v: int, w: int|
                        0 <= v < n && v != node && labels@[v] == label && before[v] == usize::MAX && !stack@.contains(v as usize)
                            && #[trigger] self.has_edge(v, w) ==> labels@[w] == label,
                    forall|j: int| 0 <= j < k ==> labels@[#[trigger] neighbours@[j] as int] == label,
                    stack.len() >= len_at_pop,
                    unlabelled_count(labels@) + stack.len() == count_at_pop + len_at_pop,
                decreases neighbours.len() - k,
            {
                let neighbour = neighbours[k];
                proof {
                    assert(self.adj()[node as int][k as int] == neighbour);
                    assert(self.adj()[node as int].contains(neighbour));
                    assert(self.has_edge(node as int, neighbour as int));
                    self.lemma_connected_step(start as int, node as int, neighbour as int);
                }
                if labels[neighbour] == usize::MAX {
                    let ghost stack_before_push = stack@;
                    assert(neighbour != start);
                    proof {
                        lemma_unlabelled_count_set(labels@, neighbour as int, label);
                    }
                    labels.set(neighbour, label);
                    stack.push(neighbour);
                    proof {
                        assert forall|v: int, w: int|
                            0 <= v < n && v != node && labels@[v] == label && before[v] == usize::MAX
                                && !stack@.contains(v as usize) && #[trigger] self.has_edge(v, w) implies labels@[w]
                            == label by {
                            super::lemma_push_contains(stack_before_push, neighbour, v as usize);
                            assert(v != neighbour);
                        }
                    }
                }
                k = k + 1;
            }
            proof {
                assert forall|v: int, w: int|
                    0 <= v < n && labels@[v] == label && before[v] == usize::MAX && !stack@.contains(v as usize)
                        && #[trigger] self.has_edge(v, w) implies labels@[w] == label by {
                    if v == node {
                        let j = choose|j: int| 0 <= j < neighbours@.len() && #[trigger] neighbours@[j] == w as usize;
                        assert(labels@[neighbours@[j] as int] == label);
                    }
                }
            }
        }
        proof {
            assert forall|v: int| 0 <= v < n implies #[trigger] labels@[v] == if before[v] != usize::MAX {
                before[v]
            } else if self.connected(start as int, v) {
                label
            } else {
                usize::MAX
            } by {
                if before[v] == usize::MAX && self.connected(start as int, v) {
                    let reached = |w: int| labels@[w] == label;
                    assert forall|x: int, y: int| reached(x) && #[trigger] self.has_edge(x, y) implies reached(y) by {
                        if before[x] != usize::MAX {
                            assert(labels@[x] == before[x]);
                        }
                        assert(before[x] == usize::MAX);
                        assert(!stack@.contains(x as usize));
                    }
                    self.lemma_connected_closed(start as int, v, reached);
                }
            }
        }
    }

    proof fn lemma_connected_refl(&self, a: int)
        requires
            0 <= a < self.node_count(),
        ensures
            self.connected(a, a),
    {
        reveal(Graph::connected);
        let p = seq![a];
        assert(self.is_path(p));
    }

    proof fn lemma_connected_step(&self, a: int, b: int, c: int)
        requires
            self.connected(a, b),
            self.has_edge(b, c),
        ensures
            self.connected(a, c),
    {
        reveal(Graph::connected);
        let p = choose|p: Seq<int>| #[trigger] self.is_path(p) && p[0] == a && p.last() == b;
        let q = p.push(c);
        assert forall|i: int| 0 <= i < q.len() - 1 implies #[trigger] self.has_edge(q[i], q[i + 1]) by {
            if i < p.len() - 1 {
                assert(q[i] == p[i] && q[i + 1] == p[i + 1]);
            } else {
                assert(q[i] == b && q[i + 1] == c);
            }
        }
        assert forall|i: int| 0 <= i < q.len() implies 0 <= #[trigger] q[i] < self.node_count() by {
            if i < p.len() {
                assert(q[i] == p[i]);
            }
        }
        assert(self.is_path(q));
        assert(q[0] == a && q.last() == c);
    }

    proof fn lemma_connected_step_front(&self, a: int, b: int, c: int)
        requires
            self.has_edge(a, b),
            self.connected(b, c),
        ensures
            self.connected(a, c),
    {
        reveal(Graph::connected);
        let p = choose|p: Seq<int>| #[trigger] self.is_path(p) && p[0] == b && p.last() == c;
        let q = seq![a] + p;
        assert forall|i: int| 0 <= i < q.len() - 1 implies #[trigger] self.has_edge(q[i], q[i + 1]) by {
            if i > 0 {
                let j = i - 1;
                assert(self.has_edge(p[j], p[j + 1]));
                assert(q[i] == p[j] && q[i + 1] == p[j + 1]);
            } else {
                assert(q[i] == a);
                assert(q[i + 1] == b);
            }
        }
        assert forall|i: int| 0 <= i < q.len() implies 0 <= #[trigger] q[i] < self.node_count() by {
            if i > 0 {
                assert(q[i] == p[i - 1]);
            }
        }
        assert(self.is_path(q));
        assert(q[0] == a && q.last() == c);
    }

    /// Every node of a walk that starts in a set closed under edges lies in
    /// that set.
    proof fn lemma_closed_set(&self, p: Seq<int>, s: spec_fn(int) -> bool)
        requires
            self.is_path(p),
            s(p[0]),
            forall|x: int, y: int| s(x) && #[trigger] self.has_edge(x, y) ==> s(y),
        ensures
            s(p.last()),
        decreases p.len(),
    {
        if p.len() > 1 {
            let q = p.drop_last();
            assert forall|i: int| 0 <= i < q.len() - 1 implies #[trigger] self.has_edge(q[i], q[i + 1]) by {
                assert(q[i] == p[i] && q[i + 1] == p[i + 1]);
                assert(self.has_edge(p[i], p[i + 1]));
            }
            assert forall|i: int| 0 <= i < q.len() implies 0 <= #[trigger] q[i] < self.node_count() by {
                assert(q[i] == p[i]);
            }
            self.lemma_closed_set(q, s);
            let i = p.len() - 2;
            assert(self.has_edge(p[i], p[i + 1]));
        }
    }

    /// A set closed under edges that holds `a` holds everything connected to
    /// `a`.
    proof fn lemma_connected_closed(&self, a: int, b: int, s: spec_fn(int) -> bool)
        requires
            self.connected(a, b),
            s(a),
            forall|x: int, y: int| s(x) && #[trigger] self.has_edge(x, y) ==> s(y),
        ensures
            s(b),
    {
        reveal(Graph::connected);
        let p = choose|p: Seq<int>| #[trigger] self.is_path(p) && p[0] == a && p.last() == b;
        self.lemma_closed_set(p, s);
    }

    proof fn lemma_connected_in_range(&self, a: int, b: int)
        requires
            self.connected(a, b),
        ensures
            0 <= a < self.node_count(),
            0 <= b < self.node_count(),
    {
        reveal(Graph::connected);
        let p = choose|p: Seq<int>| #[trigger] self.is_path(p) && p[0] == a && p.last() == b;
        assert(0 <= p[p.len() - 1] < self.node_count());
    }

    proof fn lemma_connected_symmetric(&self, a: int, b: int)
        requires
            self.well_formed(),
            self.connected(a, b),
        ensures
            self.connected(b, a),
    {
        self.lemma_connected_in_range(a, b);
        self.lemma_connected_refl(a);
        let reaches_a = |w: int| self.connected(w, a);
        assert forall|x: int, y: int| reaches_a(x) && #[trigger] self.has_edge(x, y) implies reaches_a(y) by {
            assert(self.has_edge(y, x));
            self.lemma_connected_step_front(y, x, a);
        }
        self.lemma_connected_closed(a, b, reaches_a);
    }

    proof fn lemma_connected_transitive(&self, a: int, b: int, c: int)
        requires
            self.connected(a, b),
            self.connected(b, c),
        ensures
            self.connected(a, c),
    {
        let from_a = |w: int| self.connected(a, w);
        assert forall|x: int, y: int| from_a(x) && #[trigger] self.has_edge(x, y) implies from_a(y) by {
            self.lemma_connected_step(a, x, y);
        }
        self.lemma_connected_closed(b, c, from_a);
    }
}

} // verus!
