//! Walking the faces of the welded graph.
//!
//! With each node's neighbours in counter-clockwise order, every directed
//! edge (a dart: a node and a position in its neighbour list) has a next dart,
//! the first edge clockwise from the way the walk arrived. That keeps the face
//! being traced on the left, and following it from a dart comes back to the
//! dart having gone once round one face.
use vstd::prelude::*;
use super::Graph;

verus! {

impl Graph {
    /// `d` is a dart: a node and a position in its neighbour list.
    pub open spec fn is_dart(&self, d: (int, int)) -> bool {
        0 <= d.0 < self.node_count() && 0 <= d.1 < self.adj()[d.0].len()
    }

    /// The node a dart leads to.
    pub open spec fn dart_target(&self, d: (int, int)) -> int {
        self.adj()[d.0][d.1] as int
    }

    /// The dart a face walk takes after `d`: from the node `d` leads to, the
    /// neighbour just before the one it came from, cyclically.
    pub open spec fn dart_next(&self, d: (int, int)) -> (int, int) {
        let to = self.dart_target(d);
        let nb = self.adj()[to];
        let p = Self::position_or_zero(nb, d.0 as usize);
        (to, (p + nb.len() - 1) % (nb.len() as int))
    }

    /// The dart a face walk takes before `e`.
    pub open spec fn dart_prev(&self, e: (int, int)) -> (int, int) {
        let nb = self.adj()[e.0];
        let from = nb[(e.1 + 1) % (nb.len() as int)] as int;
        (from, Self::position_or_zero(self.adj()[from], e.0 as usize))
    }

    /// Following a dart and stepping back returns to it.
    pub proof fn lemma_dart_next_prev(&self, d: (int, int))
        requires
            self.well_formed(),
            self.is_dart(d),
        ensures
            self.is_dart(self.dart_next(d)),
            self.dart_prev(self.dart_next(d)) == d,
    {
        let from = d.0;
        let to = self.dart_target(d);
        assert(self.adj()[from][d.1] == to as usize);
        assert(self.adj()[from].contains(to as usize));
        assert(self.has_edge(from, to));
        assert(self.has_edge(to, from));
        let nb = self.adj()[to];
        lemma_position_exact(nb, from as usize);
        let p = Self::position_or_zero(nb, from as usize);
        let len = nb.len() as int;
        let j = (p + len - 1) % len;
        lemma_step_back(p, len);
        lemma_step_forward(j, len);
        assert(nb[p] == from as usize);
        lemma_position_unique(self.adj()[from], to as usize, d.1);
    }

    /// The dart a face walk takes after the dart at position `index` of
    /// `from`'s neighbour list.
    pub fn next_dart(&self, from: usize, index: usize) -> (next: (usize, usize))
        requires
            self.well_formed(),
            self.is_dart((from as int, index as int)),
        ensures
            (next.0 as int, next.1 as int) == self.dart_next((from as int, index as int)),
    {
        proof {
            self.lemma_dart_next_prev((from as int, index as int));
        }
        let to = self.adjacency[from][index];
        (to, self.previous_position((from, to)))
    }
}

/// Where `x` occurs in `s`, it is at `position_or_zero(s, x)`.
pub proof fn lemma_position_exact(s: Seq<usize>, x: usize)
    requires
        s.contains(x),
    ensures
        0 <= Graph::position_or_zero(s, x) < s.len(),
        s[Graph::position_or_zero(s, x)] == x,
    decreases s.len(),
{
    if s[0] != x {
        let rest = s.drop_first();
        let k = choose|k: int| 0 <= k < s.len() && #[trigger] s[k] == x;
        assert(rest[k - 1] == x);
        lemma_position_exact(rest, x);
    }
}

/// In a list without repeats, `position_or_zero` finds the one place of `x`.
pub proof fn lemma_position_unique(s: Seq<usize>, x: usize, k: int)
    requires
        s.no_duplicates(),
        0 <= k < s.len(),
        s[k] == x,
    ensures
        Graph::position_or_zero(s, x) == k,
    decreases s.len(),
{
    if k > 0 {
        let rest = s.drop_first();
        assert(s[0] != x);
        assert(rest[k - 1] == x);
        assert(rest.no_duplicates()) by {
            assert forall|i: int, j: int| 0 <= i < rest.len() && 0 <= j < rest.len() && i != j implies rest[i]
                != rest[j] by {
                assert(rest[i] == s[i + 1] && rest[j] == s[j + 1]);
            }
        }
        lemma_position_unique(rest, x, k - 1);
    }
}

proof fn lemma_step_back(p: int, len: int)
    requires
        0 <= p < len,
    ensures
        0 <= (p + len - 1) % len < len,
        (p + len - 1) % len == if p == 0 {
            len - 1
        } else {
            p - 1
        },
{
    if p == 0 {
        vstd::arithmetic::div_mod::lemma_mod_self_0(len);
        assert((len - 1) % len == len - 1) by {
            vstd::arithmetic::div_mod::lemma_small_mod((len - 1) as nat, len as nat);
        }
    } else {
        assert((p + len - 1) % len == p - 1) by {
            vstd::arithmetic::div_mod::lemma_mod_add_multiples_vanish(p - 1, len);
            vstd::arithmetic::div_mod::lemma_small_mod((p - 1) as nat, len as nat);
        }
    }
}

proof fn lemma_step_forward(q: int, len: int)
    requires
        0 <= q < len,
    ensures
        (q + 1) % len == if q == len - 1 {
            0
        } else {
            q + 1
        },
{
    if q == len - 1 {
        vstd::arithmetic::div_mod::lemma_mod_self_0(len);
    } else {
        vstd::arithmetic::div_mod::lemma_small_mod((q + 1) as nat, len as nat);
    }
}

/// Where each dart is marked as walked, as sequences.
pub open spec fn marks_view(visited: Seq<Vec<bool>>) -> Seq<Seq<bool>> {
    visited.map_values(|row: Vec<bool>| row@)
}

/// The rings returned, as sequences.
pub open spec fn rings_view(rings: Seq<Vec<usize>>) -> Seq<Seq<usize>> {
    rings.map_values(|ring: Vec<usize>| ring@)
}

/// The nodes a walk leaves from, in order.
pub open spec fn nodes_of(walk: Seq<(int, int)>) -> Seq<usize> {
    walk.map_values(|d: (int, int)| d.0 as usize)
}

/// The rings of the walks that go round a face of three or more edges; the
/// shorter ones go out and back along a single edge and bound nothing.
pub open spec fn face_rings(walks: Seq<Seq<(int, int)>>) -> Seq<Seq<usize>>
    decreases walks.len(),
{
    if walks.len() == 0 {
        Seq::empty()
    } else {
        let rest = face_rings(walks.drop_last());
        if walks.last().len() >= 3 {
            rest.push(nodes_of(walks.last()))
        } else {
            rest
        }
    }
}

/// Whether dart `d` comes before dart `e`, taking darts node by node and
/// by position within a node's list.
pub open spec fn dart_before(d: (int, int), e: (int, int)) -> bool {
    d.0 < e.0 || (d.0 == e.0 && d.1 < e.1)
}

/// How many entries of `row` are unmarked.
pub open spec fn count_unmarked(row: Seq<bool>) -> nat
    decreases row.len(),
{
    if row.len() == 0 {
        0
    } else {
        count_unmarked(row.drop_last()) + if row.last() {
            0nat
        } else {
            1nat
        }
    }
}

/// How many darts are unmarked.
pub open spec fn unmarked_darts(marks: Seq<Seq<bool>>) -> nat
    decreases marks.len(),
{
    if marks.len() == 0 {
        0
    } else {
        unmarked_darts(marks.drop_last()) + count_unmarked(marks.last())
    }
}

proof fn lemma_count_unmarked_mark(row: Seq<bool>, i: int)
    requires
        0 <= i < row.len(),
        !row[i],
    ensures
        count_unmarked(row.update(i, true)) + 1 == count_unmarked(row),
    decreases row.len(),
{
    if i < row.len() - 1 {
        assert(row.update(i, true).drop_last() =~= row.drop_last().update(i, true));
        lemma_count_unmarked_mark(row.drop_last(), i);
    } else {
        assert(row.update(i, true).drop_last() =~= row.drop_last());
    }
}

proof fn lemma_unmarked_darts_update(marks: Seq<Seq<bool>>, f: int, row: Seq<bool>)
    requires
        0 <= f < marks.len(),
    ensures
        unmarked_darts(marks.update(f, row)) + count_unmarked(marks[f]) == unmarked_darts(marks)
            + count_unmarked(row),
    decreases marks.len(),
{
    if f < marks.len() - 1 {
        assert(marks.update(f, row).drop_last() =~= marks.drop_last().update(f, row));
        lemma_unmarked_darts_update(marks.drop_last(), f, row);
    } else {
        assert(marks.update(f, row).drop_last() =~= marks.drop_last());
    }
}

/// Marks the dart at position `i` of node `f` as walked.
fn mark(visited: &mut Vec<Vec<bool>>, f: usize, i: usize)
    requires
        f < old(visited).len(),
        i < old(visited)@[f as int].len(),
    ensures
        final(visited).len() == old(visited).len(),
        marks_view(final(visited)@) == marks_view(old(visited)@).update(
            f as int,
            marks_view(old(visited)@)[f as int].update(i as int, true),
        ),
{
    let ghost before = marks_view(visited@);
    let mut row: Vec<bool> = Vec::new();
    std::mem::swap(&mut row, &mut visited[f]);
    row.set(i, true);
    std::mem::swap(&mut row, &mut visited[f]);
    proof {
        assert(marks_view(visited@) =~= before.update(f as int, before[f as int].update(i as int, true)));
    }
}

impl Graph {
    /// `marks` has one entry per dart.
    pub open spec fn marks_fit(&self, marks: Seq<Seq<bool>>) -> bool {
        &&& marks.len() == self.node_count()
        &&& forall|a: int| 0 <= a < self.node_count() ==> (#[trigger] marks[a]).len() == self.adj()[a].len()
    }

    /// `walk` goes once round a face: it follows `dart_next` from its first
    /// dart, meets no dart twice, and the dart after its last is its first.
    pub open spec fn is_face_walk(&self, walk: Seq<(int, int)>) -> bool {
        &&& walk.len() > 0
        &&& forall|k: int| 0 <= k < walk.len() ==> self.is_dart(#[trigger] walk[k])
        &&& forall|k: int| 0 < k < walk.len() ==> #[trigger] walk[k] == self.dart_next(walk[k - 1])
        &&& self.dart_next(walk.last()) == walk[0]
        &&& walk.no_duplicates()
    }

    /// Whether dart `d` lies on one of `walks`.
    pub open spec fn walked(walks: Seq<Seq<(int, int)>>, d: (int, int)) -> bool {
        exists|c: int, k: int| 0 <= c < walks.len() && 0 <= k < walks[c].len() && #[trigger] walks[c][k] == d
    }

    /// `walks` are the faces of the graph, each walked once from its first
    /// dart, in the order of those darts: every dart lies on exactly one
    /// walk.
    #[verifier::opaque]
    pub open spec fn is_face_decomposition(&self, walks: Seq<Seq<(int, int)>>) -> bool {
        &&& forall|c: int| 0 <= c < walks.len() ==> self.is_face_walk(#[trigger] walks[c])
        &&& forall|c: int, k: int|
            0 <= c < walks.len() && 0 < k < walks[c].len() ==> dart_before(walks[c][0], #[trigger] walks[c][k])
        &&& forall|c: int, e: int|
            0 <= c < e < walks.len() ==> dart_before(#[trigger] walks[c][0], #[trigger] walks[e][0])
        &&& forall|d: (int, int)| #[trigger] self.is_dart(d) ==> Self::walked(walks, d)
        &&& forall|c: int, k: int, e: int, m: int|
            0 <= c < walks.len() && 0 <= k < walks[c].len() && 0 <= e < walks.len() && 0 <= m < walks[e].len()
                && #[trigger] walks[c][k] == #[trigger] walks[e][m] ==> c == e
    }

    /// The walk over darts so far, up to the dart `pos`: the walks found are
    /// faces, apart from each other, each started from its first dart and in
    /// order; the marked darts are those walked, and every dart before `pos`
    /// is marked.
    #[verifier::opaque]
    spec fn walking(&self, marks: Seq<Seq<bool>>, walks: Seq<Seq<(int, int)>>, pos: (int, int)) -> bool {
        &&& self.marks_fit(marks)
        &&& forall|c: int| 0 <= c < walks.len() ==> self.is_face_walk(#[trigger] walks[c])
        &&& forall|c: int, k: int|
            0 <= c < walks.len() && 0 < k < walks[c].len() ==> dart_before(walks[c][0], #[trigger] walks[c][k])
        &&& forall|c: int, e: int|
            0 <= c < e < walks.len() ==> dart_before(#[trigger] walks[c][0], #[trigger] walks[e][0])
        &&& forall|c: int| 0 <= c < walks.len() ==> dart_before(#[trigger] walks[c][0], pos)
        &&& forall|c: int, k: int, e: int, m: int|
            0 <= c < walks.len() && 0 <= k < walks[c].len() && 0 <= e < walks.len() && 0 <= m < walks[e].len()
                && #[trigger] walks[c][k] == #[trigger] walks[e][m] ==> c == e
        &&& forall|d: (int, int)| #[trigger] self.is_dart(d) ==> (marks[d.0][d.1] <==> Self::walked(walks, d))
        &&& forall|d: (int, int)| #[trigger] self.is_dart(d) && dart_before(d, pos) ==> marks[d.0][d.1]
    }

    /// Every marked dart's predecessor is marked.
    pub open spec fn marks_closed(&self, marks: Seq<Seq<bool>>) -> bool {
        forall|d: (int, int)| #[trigger] self.is_dart(d) && marks[d.0][d.1] ==> ({
            let p = self.dart_prev(d);
            marks[p.0][p.1]
        })
    }

    /// Every cycle of the arrangement, as node indices, once each node's
    /// neighbours are in counter-clockwise order.
    ///
    /// Each of the two directions of each edge belongs to exactly one cycle,
    /// so walking from every unvisited directed edge enumerates them all
    /// without repeats. Walks of fewer than three edges are dropped.
    pub fn cycles(&self) -> (rings: Vec<Vec<usize>>)
        requires
            self.well_formed(),
        ensures
            exists|walks: Seq<Seq<(int, int)>>|
                #[trigger] self.is_face_decomposition(walks) && rings_view(rings@) == face_rings(walks),
    {
        let n = self.adjacency.len();
        let mut visited: Vec<Vec<bool>> = Vec::new();
        while visited.len() < n
            invariant
                n == self.node_count(),
                visited.len() <= n,
                forall|a: int| 0 <= a < visited.len() ==> (#[trigger] visited@[a])@.len() == self.adj()[a].len(),
                forall|a: int, b: int|
                    0 <= a < visited.len() && 0 <= b < visited@[a]@.len() ==> !#[trigger] visited@[a]@[b],
            decreases n - visited.len(),
        {
            let len = self.adjacency[visited.len()].len();
            let mut row: Vec<bool> = Vec::new();
            while row.len() < len
                invariant
                    row.len() <= len,
                    forall|b: int| 0 <= b < row.len() ==> !#[trigger] row@[b],
                decreases len - row.len(),
            {
                row.push(false);
            }
            visited.push(row);
        }
        let mut rings: Vec<Vec<usize>> = Vec::new();
        let ghost mut walks: Seq<Seq<(int, int)>> = Seq::empty();
        proof {
            reveal(Graph::walking);
            assert(rings_view(rings@) =~= face_rings(walks));
        }
        let mut from: usize = 0;
        while from < n
            invariant
                self.well_formed(),
                n == self.node_count(),
                from <= n,
                visited.len() == n,
                self.walking(marks_view(visited@), walks, (from as int, 0)),
                rings_view(rings@) == face_rings(walks),
            decreases n - from,
        {
            let mut index: usize = 0;
            while index < self.adjacency[from].len()
                invariant
                    self.well_formed(),
                    n == self.node_count(),
                    from < n,
                    index <= self.adj()[from as int].len(),
                    visited.len() == n,
                    self.walking(marks_view(visited@), walks, (from as int, index as int)),
                    rings_view(rings@) == face_rings(walks),
                decreases self.adj()[from as int].len() - index,
            {
                let ghost marks = marks_view(visited@);
                proof {
                    self.lemma_walking_fit(marks, walks, (from as int, index as int));
                    assert(marks[from as int] == visited@[from as int]@);
                }
                if !visited[from][index] {
                    proof {
                        self.lemma_walking_closed(marks, walks, (from as int, index as int));
                    }
                    let (ring, Ghost(walk)) = self.walk_face(&mut visited, from, index);
                    let ghost rings_before = rings@;
                    if ring.len() >= 3 {
                        rings.push(ring);
                    }
                    proof {
                        assert(walks.push(walk).drop_last() =~= walks);
                        assert(rings_view(rings@) =~= face_rings(walks.push(walk)));
                        self.lemma_walking_add(marks, marks_view(visited@), walks, walk, (from as int, index as int));
                        walks = walks.push(walk);
                    }
                } else {
                    proof {
                        self.lemma_walking_skip(marks, walks, (from as int, index as int));
                    }
                }
                index = index + 1;
            }
            proof {
                self.lemma_walking_next_node(marks_view(visited@), walks, from as int);
            }
            from = from + 1;
        }
        proof {
            self.lemma_walking_done(marks_view(visited@), walks);
        }
        rings
    }

    /// Walks the face from the unmarked dart at position `index` of `from`,
    /// marking each dart on it, and returns the nodes it leaves from with the
    /// walk itself.
    fn walk_face(&self, visited: &mut Vec<Vec<bool>>, from: usize, index: usize) -> (result: (
        Vec<usize>,
        Ghost<Seq<(int, int)>>,
    ))
        requires
            self.well_formed(),
            self.marks_fit(marks_view(old(visited)@)),
            self.is_dart((from as int, index as int)),
            !marks_view(old(visited)@)[from as int][index as int],
            self.marks_closed(marks_view(old(visited)@)),
        ensures
            self.marks_fit(marks_view(final(visited)@)),
            final(visited).len() == old(visited).len(),
            self.is_face_walk(result.1@),
            result.1@[0] == (from as int, index as int),
            forall|k: int|
                0 <= k < result.1@.len() ==> !marks_view(old(visited)@)[(#[trigger] result.1@[k]).0][result.1@[k].1],
            forall|d: (int, int)|
                #[trigger] self.is_dart(d) ==> (marks_view(final(visited)@)[d.0][d.1] <==> (marks_view(
                    old(visited)@,
                )[d.0][d.1] || result.1@.contains(d))),
            result.0@ == nodes_of(result.1@),
    {
        let ghost before = marks_view(visited@);
        let ghost start = (from as int, index as int);
        let mut ring: Vec<usize> = Vec::new();
        let ghost mut walk: Seq<(int, int)> = Seq::empty();
        let mut f = from;
        let mut i = index;
        let mut closed = false;
        while !closed
            invariant
                self.well_formed(),
                visited.len() == before.len(),
                self.marks_fit(marks_view(visited@)),
                self.marks_fit(before),
                self.marks_closed(before),
                self.is_dart(start),
                !before[start.0][start.1],
                start == (from as int, index as int),
                self.is_dart((f as int, i as int)),
                !closed ==> !marks_view(visited@)[f as int][i as int],
                !closed && walk.len() == 0 ==> (f as int, i as int) == start,
                !closed && walk.len() > 0 ==> (f as int, i as int) == self.dart_next(walk.last()) && (f as int, i
                    as int) != start,
                closed ==> walk.len() > 0 && self.dart_next(walk.last()) == start,
                walk.len() > 0 ==> walk[0] == start,
                forall|k: int| 0 < k < walk.len() ==> #[trigger] walk[k] == self.dart_next(walk[k - 1]),
                forall|k: int| 0 <= k < walk.len() ==> self.is_dart(#[trigger] walk[k]),
                forall|k: int| 0 <= k < walk.len() ==> !before[(#[trigger] walk[k]).0][walk[k].1],
                walk.no_duplicates(),
                forall|d: (int, int)|
                    #[trigger] self.is_dart(d) ==> (marks_view(visited@)[d.0][d.1] <==> (before[d.0][d.1]
                        || walk.contains(d))),
                ring@ == nodes_of(walk),
            decreases unmarked_darts(marks_view(visited@)),
        {
            let ghost marks = marks_view(visited@);
            let ghost cur = (f as int, i as int);
            proof {
                lemma_count_unmarked_mark(marks[f as int], i as int);
                lemma_unmarked_darts_update(marks, f as int, marks[f as int].update(i as int, true));
            }
            mark(visited, f, i);
            ring.push(f);
            proof {
                assert(!walk.contains(cur)) by {
                    if walk.contains(cur) {
                        let k = choose|k: int| 0 <= k < walk.len() && #[trigger] walk[k] == cur;
                        assert(marks[cur.0][cur.1]);
                    }
                }
                let old_walk = walk;
                walk = walk.push(cur);
                assert(ring@ =~= nodes_of(walk));
                assert forall|d: (int, int)| #[trigger] self.is_dart(d) implies (marks_view(visited@)[d.0][d.1] <==> (
                before[d.0][d.1] || walk.contains(d))) by {
                    lemma_push_contains_any(old_walk, cur, d);
                }
                assert forall|a: int| 0 <= a < self.node_count() implies (#[trigger] marks_view(visited@)[a]).len()
                    == self.adj()[a].len() by {}
                self.lemma_dart_next_prev(cur);
            }
            let (nf, ni) = self.next_dart(f, i);
            if nf == from && ni == index {
                closed = true;
            } else {
                proof {
                    let e = (nf as int, ni as int);
                    assert(!marks_view(visited@)[e.0][e.1]) by {
                        if before[e.0][e.1] {
                            assert(before[self.dart_prev(e).0][self.dart_prev(e).1]);
                        } else if walk.contains(e) {
                            let j = choose|j: int| 0 <= j < walk.len() && #[trigger] walk[j] == e;
                            if j > 0 {
                                self.lemma_dart_next_prev(walk[j - 1]);
                                assert(walk[j - 1] == walk[walk.len() - 1]);
                            }
                        }
                    }
                }
                f = nf;
                i = ni;
            }
        }
        (ring, Ghost(walk))
    }

    proof fn lemma_walking_fit(&self, marks: Seq<Seq<bool>>, walks: Seq<Seq<(int, int)>>, pos: (int, int))
        requires
            self.walking(marks, walks, pos),
        ensures
            self.marks_fit(marks),
    {
        reveal(Graph::walking);
    }

    /// The marked darts are whole faces, so each one's predecessor is marked.
    proof fn lemma_walking_closed(&self, marks: Seq<Seq<bool>>, walks: Seq<Seq<(int, int)>>, pos: (int, int))
        requires
            self.well_formed(),
            self.walking(marks, walks, pos),
        ensures
            self.marks_closed(marks),
    {
        reveal(Graph::walking);
        assert forall|d: (int, int)| #[trigger] self.is_dart(d) && marks[d.0][d.1] implies ({
            let p = self.dart_prev(d);
            marks[p.0][p.1]
        }) by {
            let (c, k) = choose|c: int, k: int|
                0 <= c < walks.len() && 0 <= k < walks[c].len() && #[trigger] walks[c][k] == d;
            let w = walks[c];
            assert(self.is_face_walk(w));
            let q = if k > 0 {
                k - 1
            } else {
                w.len() - 1
            };
            assert(self.is_dart(w[q]));
            self.lemma_dart_next_prev(w[q]);
            assert(self.dart_next(w[q]) == d);
            assert(Self::walked(walks, w[q]));
        }
    }

    proof fn lemma_walking_skip(&self, marks: Seq<Seq<bool>>, walks: Seq<Seq<(int, int)>>, pos: (int, int))
        requires
            self.walking(marks, walks, pos),
            self.is_dart(pos),
            marks[pos.0][pos.1],
        ensures
            self.walking(marks, walks, (pos.0, pos.1 + 1)),
    {
        reveal(Graph::walking);
    }

    proof fn lemma_walking_next_node(&self, marks: Seq<Seq<bool>>, walks: Seq<Seq<(int, int)>>, from: int)
        requires
            0 <= from < self.node_count(),
            self.walking(marks, walks, (from, self.adj()[from].len() as int)),
        ensures
            self.walking(marks, walks, (from + 1, 0)),
    {
        reveal(Graph::walking);
    }

    proof fn lemma_walking_done(&self, marks: Seq<Seq<bool>>, walks: Seq<Seq<(int, int)>>)
        requires
            self.walking(marks, walks, (self.node_count(), 0)),
        ensures
            self.is_face_decomposition(walks),
    {
        reveal(Graph::walking);
        reveal(Graph::is_face_decomposition);
    }

    /// Each walk of a face decomposition is a face walk.
    pub proof fn lemma_decomposition_walk(&self, walks: Seq<Seq<(int, int)>>, c: int)
        requires
            self.is_face_decomposition(walks),
            0 <= c < walks.len(),
        ensures
            self.is_face_walk(walks[c]),
    {
        reveal(Graph::is_face_decomposition);
    }

    /// Each walk of a face decomposition starts from its first dart.
    pub proof fn lemma_decomposition_first(&self, walks: Seq<Seq<(int, int)>>, c: int, k: int)
        requires
            self.is_face_decomposition(walks),
            0 <= c < walks.len(),
            0 < k < walks[c].len(),
        ensures
            dart_before(walks[c][0], walks[c][k]),
    {
        reveal(Graph::is_face_decomposition);
    }

    /// The walks of a face decomposition come in the order of their first
    /// darts.
    pub proof fn lemma_decomposition_ordered(&self, walks: Seq<Seq<(int, int)>>, c: int, e: int)
        requires
            self.is_face_decomposition(walks),
            0 <= c < e < walks.len(),
        ensures
            dart_before(walks[c][0], walks[e][0]),
    {
        reveal(Graph::is_face_decomposition);
    }

    /// Every dart lies on a walk of a face decomposition.
    pub proof fn lemma_decomposition_covers(&self, walks: Seq<Seq<(int, int)>>, d: (int, int))
        requires
            self.is_face_decomposition(walks),
            self.is_dart(d),
        ensures
            Self::walked(walks, d),
    {
        reveal(Graph::is_face_decomposition);
    }

    /// No dart lies on two walks of a face decomposition.
    pub proof fn lemma_decomposition_apart(&self, walks: Seq<Seq<(int, int)>>, c: int, k: int, e: int, m: int)
        requires
            self.is_face_decomposition(walks),
            0 <= c < walks.len(),
            0 <= k < walks[c].len(),
            0 <= e < walks.len(),
            0 <= m < walks[e].len(),
            walks[c][k] == walks[e][m],
        ensures
            c == e,
    {
        reveal(Graph::is_face_decomposition);
    }

    proof fn lemma_walking_add(
        &self,
        marks: Seq<Seq<bool>>,
        after: Seq<Seq<bool>>,
        walks: Seq<Seq<(int, int)>>,
        walk: Seq<(int, int)>,
        pos: (int, int),
    )
        requires
            self.walking(marks, walks, pos),
            self.is_dart(pos),
            !marks[pos.0][pos.1],
            self.marks_fit(after),
            self.is_face_walk(walk),
            walk[0] == pos,
            forall|k: int| 0 <= k < walk.len() ==> !marks[(#[trigger] walk[k]).0][walk[k].1],
            forall|d: (int, int)|
                #[trigger] self.is_dart(d) ==> (after[d.0][d.1] <==> (marks[d.0][d.1] || walk.contains(d))),
        ensures
            self.walking(after, walks.push(walk), (pos.0, pos.1 + 1)),
    {
        reveal(Graph::walking);
        let all = walks.push(walk);
        let c_new = walks.len() as int;
        assert forall|k: int| 0 < k < walk.len() implies dart_before(walk[0], #[trigger] walk[k]) by {
            assert(self.is_dart(walk[k]));
            assert(!marks[walk[k].0][walk[k].1]);
            assert(walk[k] != walk[0]);
        }
        assert forall|d: (int, int)| #[trigger] self.is_dart(d) implies (after[d.0][d.1] <==> Self::walked(all, d)) by {
            if Self::walked(walks, d) {
                let (c, k) = choose|c: int, k: int|
                    0 <= c < walks.len() && 0 <= k < walks[c].len() && #[trigger] walks[c][k] == d;
                assert(all[c][k] == d);
            }
            if walk.contains(d) {
                let k = choose|k: int| 0 <= k < walk.len() && #[trigger] walk[k] == d;
                assert(all[c_new][k] == d);
            }
            if Self::walked(all, d) {
                let (c, k) = choose|c: int, k: int|
                    0 <= c < all.len() && 0 <= k < all[c].len() && #[trigger] all[c][k] == d;
                if c < c_new {
                    assert(walks[c][k] == d);
                } else {
                    assert(walk[k] == d);
                }
            }
        }
        assert forall|c: int, k: int, e: int, m: int|
            0 <= c < all.len() && 0 <= k < all[c].len() && 0 <= e < all.len() && 0 <= m < all[e].len()
                && #[trigger] all[c][k] == #[trigger] all[e][m] implies c == e by {
            if c < c_new && e == c_new {
                let d = all[c][k];
                assert(walks[c][k] == d);
                assert(self.is_face_walk(walks[c]));
                assert(self.is_dart(d));
                assert(Self::walked(walks, d));
                assert(walk[m] == d);
            } else if c == c_new && e < c_new {
                let d = all[e][m];
                assert(walks[e][m] == d);
                assert(self.is_face_walk(walks[e]));
                assert(self.is_dart(d));
                assert(Self::walked(walks, d));
                assert(walk[k] == d);
            } else if c < c_new && e < c_new {
                assert(walks[c][k] == walks[e][m]);
            }
        }
        assert forall|c: int| 0 <= c < all.len() implies self.is_face_walk(#[trigger] all[c]) by {
            if c < c_new {
                assert(all[c] == walks[c]);
            }
        }
        assert forall|c: int, k: int|
            0 <= c < all.len() && 0 < k < all[c].len() implies dart_before(all[c][0], #[trigger] all[c][k]) by {
            if c < c_new {
                assert(all[c] == walks[c]);
            }
        }
        assert forall|c: int, e: int| 0 <= c < e < all.len() implies dart_before(#[trigger] all[c][0], #[trigger] all[e][0]) by {
            assert(all[c] == walks[c]);
            if e < c_new {
                assert(all[e] == walks[e]);
            }
        }
        assert forall|c: int| 0 <= c < all.len() implies dart_before(#[trigger] all[c][0], (pos.0, pos.1 + 1)) by {
            if c < c_new {
                assert(all[c] == walks[c]);
            }
        }
        assert forall|d: (int, int)| #[trigger] self.is_dart(d) && dart_before(d, (pos.0, pos.1 + 1)) implies after[d.0][d.1] by {
            if d == pos {
                assert(walk.contains(walk[0]));
            }
        }
    }
}

proof fn lemma_push_contains_any<A>(s: Seq<A>, v: A, x: A)
    ensures
        s.push(v).contains(x) <==> (s.contains(x) || x == v),
{
    if s.push(v).contains(x) && x != v {
        let k = choose|k: int| 0 <= k < s.push(v).len() && #[trigger] s.push(v)[k] == x;
        assert(s[k] == x);
    }
    if s.contains(x) {
        let k = choose|k: int| 0 <= k < s.len() && #[trigger] s[k] == x;
        assert(s.push(v)[k] == x);
    }
    if x == v {
        assert(s.push(v)[s.len() as int] == x);
    }
}

/// Two face walks from the same dart are the same walk.
pub proof fn lemma_face_walk_unique(g: Graph, w: Seq<(int, int)>, v: Seq<(int, int)>)
    requires
        g.is_face_walk(w),
        g.is_face_walk(v),
        w[0] == v[0],
    ensures
        w == v,
{
    let k = if w.len() <= v.len() {
        w.len() as int
    } else {
        v.len() as int
    };
    lemma_face_walk_prefix(g, w, v, k);
    if w.len() < v.len() {
        assert(v[k] == g.dart_next(v[k - 1]));
        assert(v[k] == v[0]);
    } else if v.len() < w.len() {
        assert(w[k] == g.dart_next(w[k - 1]));
        assert(w[k] == w[0]);
    }
    assert(w =~= v);
}

proof fn lemma_face_walk_prefix(g: Graph, w: Seq<(int, int)>, v: Seq<(int, int)>, k: int)
    requires
        g.is_face_walk(w),
        g.is_face_walk(v),
        w[0] == v[0],
        0 <= k <= w.len(),
        k <= v.len(),
    ensures
        forall|i: int| 0 <= i < k ==> w[i] == v[i],
    decreases k,
{
    if k > 1 {
        lemma_face_walk_prefix(g, w, v, k - 1);
        assert(w[k - 1] == g.dart_next(w[k - 2]));
        assert(v[k - 1] == g.dart_next(v[k - 2]));
    }
}

/// The walk `w` started from its `m`-th dart instead.
pub open spec fn rotated(w: Seq<(int, int)>, m: int) -> Seq<(int, int)> {
    w.skip(m) + w.take(m)
}

#[verifier::spinoff_prover]
#[verifier::rlimit(40)]
proof fn lemma_rotated_face_walk(g: Graph, w: Seq<(int, int)>, m: int)
    requires
        g.is_face_walk(w),
        0 <= m < w.len(),
    ensures
        g.is_face_walk(rotated(w, m)),
        rotated(w, m)[0] == w[m],
        forall|x: (int, int)| rotated(w, m).contains(x) ==> w.contains(x),
{
    let r = rotated(w, m);
    let n = w.len() as int;
    assert(r.len() == n);
    assert forall|i: int| 0 <= i < n implies #[trigger] r[i] == if i < n - m {
        w[m + i]
    } else {
        w[i - (n - m)]
    } by {}
    assert forall|k: int| 0 <= k < n implies g.is_dart(#[trigger] r[k]) by {
        if k < n - m {
            assert(r[k] == w[m + k]);
        } else {
            assert(r[k] == w[k - (n - m)]);
        }
    }
    assert forall|k: int| 0 < k < n implies #[trigger] r[k] == g.dart_next(r[k - 1]) by {
        if k < n - m {
            assert(r[k] == w[m + k] && r[k - 1] == w[m + k - 1]);
        } else if k == n - m {
            assert(r[k] == w[0] && r[k - 1] == w[n - 1]);
        } else {
            assert(r[k] == w[k - (n - m)] && r[k - 1] == w[k - 1 - (n - m)]);
        }
    }
    if m == 0 {
        assert(r[n - 1] == w[n - 1]);
    } else {
        assert(r[n - 1] == w[m - 1]);
        assert(w[m] == g.dart_next(w[m - 1]));
    }
    assert forall|a: int, b: int| 0 <= a < n && 0 <= b < n && a != b implies r[a] != r[b] by {
        let ia = if a < n - m {
            m + a
        } else {
            a - (n - m)
        };
        let ib = if b < n - m {
            m + b
        } else {
            b - (n - m)
        };
        assert(r[a] == w[ia] && r[b] == w[ib]);
    }
    assert forall|x: (int, int)| r.contains(x) implies w.contains(x) by {
        let k = choose|k: int| 0 <= k < n && r[k] == x;
        if k < n - m {
            assert(w[m + k] == x);
        } else {
            assert(w[k - (n - m)] == x);
        }
    }
}

/// Each walk of one face decomposition is a walk of any other.
proof fn lemma_walk_in_other(g: Graph, w1: Seq<Seq<(int, int)>>, w2: Seq<Seq<(int, int)>>, c: int)
    requires
        g.is_face_decomposition(w1),
        g.is_face_decomposition(w2),
        0 <= c < w1.len(),
    ensures
        exists|e: int| 0 <= e < w2.len() && #[trigger] w2[e] == w1[c],
{
    g.lemma_decomposition_walk(w1, c);
    let walk = w1[c];
    let d = walk[0];
    g.lemma_decomposition_covers(w2, d);
    let (e, m) = choose|e: int, m: int| 0 <= e < w2.len() && 0 <= m < w2[e].len() && #[trigger] w2[e][m] == d;
    g.lemma_decomposition_walk(w2, e);
    let other = w2[e];
    lemma_rotated_face_walk(g, other, m);
    lemma_face_walk_unique(g, rotated(other, m), walk);
    if m != 0 {
        let first = other[0];
        assert(rotated(other, m).contains(first)) by {
            let n = other.len() as int;
            assert(rotated(other, m)[n - m] == other[0]);
        }
        let p = choose|p: int| 0 <= p < walk.len() && walk[p] == first;
        assert(first != d);
        g.lemma_decomposition_first(w1, c, p);
        g.lemma_decomposition_first(w2, e, m);
    }
    assert(rotated(other, 0) =~= other);
}

/// A graph has one face decomposition: every face walked once from its
/// first dart, in the order of those darts.
pub proof fn law_face_decomposition_unique(g: Graph, w1: Seq<Seq<(int, int)>>, w2: Seq<Seq<(int, int)>>)
    requires
        g.is_face_decomposition(w1),
        g.is_face_decomposition(w2),
    ensures
        w1 == w2,
{
    let k = if w1.len() <= w2.len() {
        w1.len() as int
    } else {
        w2.len() as int
    };
    lemma_decompositions_agree(g, w1, w2, k);
    if w2.len() > w1.len() {
        let c = w1.len() as int;
        lemma_walk_in_other(g, w2, w1, c);
        let f = choose|f: int| 0 <= f < w1.len() && #[trigger] w1[f] == w2[c];
        assert(w2[f] == w1[f]);
        g.lemma_decomposition_walk(w2, c);
        g.lemma_decomposition_apart(w2, f, 0, c, 0);
    } else if w1.len() > w2.len() {
        let c = w2.len() as int;
        lemma_walk_in_other(g, w1, w2, c);
        let e = choose|e: int| 0 <= e < w2.len() && #[trigger] w2[e] == w1[c];
        assert(w1[e] == w2[e]);
        g.lemma_decomposition_walk(w1, c);
        g.lemma_decomposition_apart(w1, e, 0, c, 0);
    }
    assert(w1 =~= w2);
}

/// The first `k` walks of two face decompositions agree.
proof fn lemma_decompositions_agree(g: Graph, w1: Seq<Seq<(int, int)>>, w2: Seq<Seq<(int, int)>>, k: int)
    requires
        g.is_face_decomposition(w1),
        g.is_face_decomposition(w2),
        0 <= k <= w1.len(),
        k <= w2.len(),
    ensures
        forall|c: int| 0 <= c < k ==> #[trigger] w1[c] == w2[c],
    decreases k,
{
    if k > 0 {
        let c = k - 1;
        lemma_decompositions_agree(g, w1, w2, c);
        lemma_walk_in_other(g, w1, w2, c);
        let e = choose|e: int| 0 <= e < w2.len() && #[trigger] w2[e] == w1[c];
        g.lemma_decomposition_walk(w1, c);
        if e < c {
            assert(w1[e] == w2[e]);
            g.lemma_decomposition_apart(w1, e, 0, c, 0);
        } else if e > c {
            lemma_walk_in_other(g, w2, w1, c);
            let f = choose|f: int| 0 <= f < w1.len() && #[trigger] w1[f] == w2[c];
            g.lemma_decomposition_walk(w2, c);
            if f < c {
                assert(w2[f] == w1[f]);
                g.lemma_decomposition_apart(w2, f, 0, c, 0);
            } else if f == c {
                g.lemma_decomposition_apart(w2, c, 0, e, 0);
            } else {
                g.lemma_decomposition_ordered(w1, c, f);
                g.lemma_decomposition_ordered(w2, c, e);
            }
        }
    }
}

} // verus!
