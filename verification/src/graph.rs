//! Directed graphs given as adjacency lists, and a depth-first walk that
//! either orders the nodes so that every edge points backwards, or exhibits
//! a cycle.

use vstd::prelude::*;

verus! {

/// Visitation state of a node during the depth-first walk.
#[derive(Clone, Copy, PartialEq, Eq, Debug, Structural)]
pub enum Mark {
    /// Not reached yet.
    Unvisited,
    /// On the path that is being explored.
    Active,
    /// Left for good, together with everything reachable from it.
    Finished,
}

/// Every edge leads to a node of the graph.
pub open spec fn closed_graph(adj: Seq<Vec<usize>>) -> bool {
    forall|i: int, k: int|
        0 <= i < adj.len() && 0 <= k < adj[i]@.len() ==> (#[trigger] adj[i]@[k]) < adj.len()
}

/// There is an edge from `from` to `to`.
pub open spec fn has_edge(adj: Seq<Vec<usize>>, from: usize, to: usize) -> bool {
    &&& from < adj.len()
    &&& exists|k: int| 0 <= k < adj[from as int]@.len() && adj[from as int]@[k] == to
}

/// The position that follows `p` on a closed walk of length `len`.
pub open spec fn successor(len: nat, p: int) -> int {
    if p + 1 == len {
        0
    } else {
        p + 1
    }
}

/// The walk `c` has an edge from its position `p` to the next one.
pub open spec fn cycle_step(adj: Seq<Vec<usize>>, c: Seq<usize>, p: int) -> bool {
    has_edge(adj, c[p], c[successor(c.len(), p)])
}

/// `c` is a closed walk: each node has an edge to the next, the last to the first.
pub open spec fn is_cycle(adj: Seq<Vec<usize>>, c: Seq<usize>) -> bool {
    &&& c.len() > 0
    &&& forall|p: int| 0 <= p < c.len() ==> #[trigger] cycle_step(adj, c, p)
}

/// No closed walk exists.
pub open spec fn acyclic(adj: Seq<Vec<usize>>) -> bool {
    forall|c: Seq<usize>| !#[trigger] is_cycle(adj, c)
}

/// `rank` strictly decreases along every edge.
pub open spec fn is_ranking(adj: Seq<Vec<usize>>, rank: Seq<usize>) -> bool {
    &&& rank.len() == adj.len()
    &&& forall|i: int, k: int|
        0 <= i < adj.len() && 0 <= k < adj[i]@.len() ==> rank[(#[trigger] adj[i]@[k]) as int]
            < rank[i]
}

/// `order` lists every node once, and `rank` gives each node its position in it.
pub open spec fn is_listing(order: Seq<usize>, rank: Seq<usize>) -> bool {
    &&& order.len() == rank.len()
    &&& forall|q: int| 0 <= q < order.len() ==> (#[trigger] order[q]) < rank.len()
    &&& forall|q: int| 0 <= q < order.len() ==> rank[(#[trigger] order[q]) as int] == q
    &&& forall|i: int| 0 <= i < rank.len() ==> (#[trigger] rank[i]) < order.len()
    &&& forall|i: int| 0 <= i < rank.len() ==> order[(#[trigger] rank[i]) as int] == i
}

/// A graph with a ranking has no cycle: along a closed walk the rank would
/// have to fall forever.
pub proof fn lemma_ranking_excludes_cycle(adj: Seq<Vec<usize>>, rank: Seq<usize>, c: Seq<usize>)
    requires
        closed_graph(adj),
        is_ranking(adj, rank),
    ensures
        !is_cycle(adj, c),
{
    if is_cycle(adj, c) {
        lemma_rank_falls(adj, rank, c, c.len() - 1);
        assert(cycle_step(adj, c, c.len() - 1));
    }
}

proof fn lemma_rank_falls(adj: Seq<Vec<usize>>, rank: Seq<usize>, c: Seq<usize>, p: int)
    requires
        closed_graph(adj),
        is_ranking(adj, rank),
        is_cycle(adj, c),
        0 <= p < c.len(),
    ensures
        c[p] < adj.len(),
        rank[c[p] as int] + p <= rank[c[0] as int],
    decreases p,
{
    assert(cycle_step(adj, c, p));
    if p > 0 {
        lemma_rank_falls(adj, rank, c, p - 1);
        assert(cycle_step(adj, c, p - 1));
    }
}

/// A graph with a ranking is acyclic.
pub proof fn lemma_ranking_implies_acyclic(adj: Seq<Vec<usize>>, rank: Seq<usize>)
    requires
        closed_graph(adj),
        is_ranking(adj, rank),
    ensures
        acyclic(adj),
{
    assert forall|c: Seq<usize>| !#[trigger] is_cycle(adj, c) by {
        lemma_ranking_excludes_cycle(adj, rank, c);
    }
}

/// How many nodes are still unvisited.
pub open spec fn pending(marks: Seq<Mark>) -> nat
    decreases marks.len(),
{
    if marks.len() == 0 {
        0
    } else {
        pending(marks.drop_last()) + if marks.last() == Mark::Unvisited {
            1nat
        } else {
            0nat
        }
    }
}

proof fn lemma_pending_update(marks: Seq<Mark>, i: int, m: Mark)
    requires
        0 <= i < marks.len(),
        m != Mark::Unvisited,
    ensures
        pending(marks.update(i, m)) + (if marks[i] == Mark::Unvisited {
            1nat
        } else {
            0nat
        }) == pending(marks),
    decreases marks.len(),
{
    let updated = marks.update(i, m);
    if i == marks.len() - 1 {
        assert(updated.drop_last() =~= marks.drop_last());
    } else {
        assert(updated.drop_last() =~= marks.drop_last().update(i, m));
        lemma_pending_update(marks.drop_last(), i, m);
    }
}

proof fn lemma_pending_all(marks: Seq<Mark>)
    requires
        forall|i: int| 0 <= i < marks.len() ==> marks[i] == Mark::Unvisited,
    ensures
        pending(marks) == marks.len(),
    decreases marks.len(),
{
    if marks.len() > 0 {
        lemma_pending_all(marks.drop_last());
    }
}

proof fn lemma_pending_none(marks: Seq<Mark>)
    requires
        forall|i: int| 0 <= i < marks.len() ==> marks[i] != Mark::Unvisited,
    ensures
        pending(marks) == 0,
    decreases marks.len(),
{
    if marks.len() > 0 {
        lemma_pending_none(marks.drop_last());
    }
}

/// The state of a depth-first walk.
struct Walk {
    /// The mark of each node.
    marks: Vec<Mark>,
    /// For an active node its position on the path, for a finished one its
    /// position in the order.
    rank: Vec<usize>,
    /// The finished nodes, in the order in which they were left.
    order: Vec<usize>,
    /// The active nodes, from the start of the exploration to its tip.
    path: Vec<usize>,
}

/// The path has an edge into its position `p`.
spec fn path_link(adj: Seq<Vec<usize>>, path: Seq<usize>, p: int) -> bool {
    p > 0 ==> has_edge(adj, path[p - 1], path[p])
}

impl Walk {
    spec fn inv(&self, adj: Seq<Vec<usize>>) -> bool {
        let n = adj.len();
        &&& closed_graph(adj)
        &&& self.marks@.len() == n
        &&& self.rank@.len() == n
        &&& pending(self.marks@) + self.path@.len() + self.order@.len() == n
        &&& forall|p: int|
            0 <= p < self.path@.len() ==> {
                &&& (#[trigger] self.path@[p]) < n
                &&& self.marks@[self.path@[p] as int] == Mark::Active
                &&& self.rank@[self.path@[p] as int] == p
            }
        &&& forall|p: int| 0 <= p < self.path@.len() ==> #[trigger] path_link(adj, self.path@, p)
        &&& forall|q: int|
            0 <= q < self.order@.len() ==> {
                &&& (#[trigger] self.order@[q]) < n
                &&& self.marks@[self.order@[q] as int] == Mark::Finished
                &&& self.rank@[self.order@[q] as int] == q
            }
        &&& forall|i: int|
            0 <= i < n && (#[trigger] self.marks@[i]) == Mark::Active ==> {
                &&& self.rank@[i] < self.path@.len()
                &&& self.path@[self.rank@[i] as int] == i
            }
        &&& forall|i: int|
            0 <= i < n && (#[trigger] self.marks@[i]) == Mark::Finished ==> {
                &&& self.rank@[i] < self.order@.len()
                &&& self.order@[self.rank@[i] as int] == i
            }
        &&& forall|i: int, k: int|
            0 <= i < n && self.marks@[i] == Mark::Finished && 0 <= k < adj[i]@.len() ==> {
                &&& self.marks@[(#[trigger] adj[i]@[k]) as int] == Mark::Finished
                &&& self.rank@[adj[i]@[k] as int] < self.rank@[i]
            }
    }

    /// What a walk that started from `before` leaves alone: marks and ranks
    /// of the nodes that `before` had reached already.
    spec fn keeps(&self, before: Walk) -> bool {
        &&& self.marks@.len() == before.marks@.len()
        &&& self.rank@.len() == before.rank@.len()
        &&& forall|i: int|
            0 <= i < before.marks@.len() && before.marks@[i] != Mark::Unvisited ==> {
                &&& (#[trigger] self.marks@[i]) == before.marks@[i]
                &&& self.rank@[i] == before.rank@[i]
            }
        &&& pending(self.marks@) <= pending(before.marks@)
    }
}

/// No node occurs twice in `c`, and each is a node of a graph of `n` nodes.
pub open spec fn simple_within(c: Seq<usize>, n: nat) -> bool {
    &&& forall|p: int| 0 <= p < c.len() ==> (#[trigger] c[p]) < n
    &&& forall|p: int, q: int| 0 <= p < q < c.len() ==> c[p] != c[q]
}

/// The part of `path` from `start` on.
fn tail_of(path: &Vec<usize>, start: usize) -> (tail: Vec<usize>)
    requires
        start <= path@.len(),
    ensures
        tail@ == path@.subrange(start as int, path@.len() as int),
{
    let mut tail: Vec<usize> = Vec::new();
    let mut j: usize = start;
    while j < path.len()
        invariant
            start <= j <= path@.len(),
            tail@ == path@.subrange(start as int, j as int),
        decreases path@.len() - j,
    {
        tail.push(path[j]);
        assert(tail@ =~= path@.subrange(start as int, j + 1));
        j = j + 1;
    }
    tail
}

/// Explores everything reachable from the unvisited node `u`. Returns a
/// cycle if the exploration runs into the active path, and otherwise leaves
/// `u` finished and the path as it was.
#[verifier::loop_isolation(false)]
fn visit(adj: &Vec<Vec<usize>>, walk: &mut Walk, u: usize) -> (found: Option<Vec<usize>>)
    requires
        old(walk).inv(adj@),
        u < adj@.len(),
        old(walk).marks@[u as int] == Mark::Unvisited,
        old(walk).path@.len() > 0 ==> has_edge(adj@, old(walk).path@.last(), u),
    ensures
        match found {
            Some(c) => is_cycle(adj@, c@) && simple_within(c@, adj@.len()),
            None => {
                &&& final(walk).inv(adj@)
                &&& final(walk).keeps(*old(walk))
                &&& final(walk).path@ == old(walk).path@
                &&& final(walk).marks@[u as int] == Mark::Finished
            },
        },
    decreases pending(old(walk).marks@),
{
    let ghost before = *walk;
    let position = walk.path.len();
    walk.marks.set(u, Mark::Active);
    walk.rank.set(u, position);
    walk.path.push(u);
    proof {
        lemma_pending_update(before.marks@, u as int, Mark::Active);
        assert forall|p: int| 0 <= p < walk.path@.len() implies #[trigger] path_link(
            adj@,
            walk.path@,
            p,
        ) by {
            if p < position {
                assert(path_link(adj@, before.path@, p));
            }
        }
        assert(walk.inv(adj@));
    }
    let ghost entered = *walk;
    let mut k: usize = 0;
    while k < adj[u].len()
        invariant
            walk.inv(adj@),
            walk.keeps(entered),
            walk.path@ == entered.path@,
            k <= adj@[u as int]@.len(),
            forall|j: int|
                0 <= j < k ==> walk.marks@[(#[trigger] adj@[u as int]@[j]) as int]
                    == Mark::Finished,
        decreases adj@[u as int]@.len() - k,
    {
        let v = adj[u][k];
        assert(v == adj@[u as int]@[k as int]);
        let mark = walk.marks[v];
        match mark {
            Mark::Finished => {},
            Mark::Active => {
                let start = walk.rank[v];
                let cycle = tail_of(&walk.path, start);
                proof {
                    let path = walk.path@;
                    let c = cycle@;
                    assert(path.last() == u);
                    assert(c.len() == path.len() - start);
                    assert forall|p: int| 0 <= p < c.len() implies #[trigger] cycle_step(
                        adj@,
                        c,
                        p,
                    ) by {
                        if p + 1 == c.len() {
                            assert(c[p] == u);
                            assert(c[0] == v);
                        } else {
                            assert(path_link(adj@, path, start + p + 1));
                        }
                    }
                    assert forall|p: int, q: int| 0 <= p < q < c.len() implies c[p] != c[q] by {
                        assert(walk.rank@[path[start + p] as int] == start + p);
                        assert(walk.rank@[path[start + q] as int] == start + q);
                    }
                    assert forall|p: int| 0 <= p < c.len() implies (#[trigger] c[p])
                        < adj@.len() by {
                        assert(path[start + p] < adj@.len());
                    }
                }
                return Some(cycle);
            },
            Mark::Unvisited => {
                let ghost mid = *walk;
                assert(has_edge(adj@, u, v));
                let found = visit(adj, walk, v);
                if found.is_some() {
                    return found;
                }
                assert(walk.keeps(entered));
            },
        }
        k = k + 1;
    }
    let ghost explored = *walk;
    walk.path.pop();
    walk.marks.set(u, Mark::Finished);
    let finished = walk.order.len();
    walk.rank.set(u, finished);
    walk.order.push(u);
    proof {
        lemma_pending_update(explored.marks@, u as int, Mark::Finished);
        assert(walk.path@ =~= before.path@);
        assert forall|p: int| 0 <= p < walk.path@.len() implies #[trigger] path_link(
            adj@,
            walk.path@,
            p,
        ) by {
            assert(path_link(adj@, explored.path@, p));
        }
        assert(walk.inv(adj@));
        assert(walk.keeps(before));
    }
    None
}

/// An order of the nodes in which every node comes after all the nodes it
/// has an edge to.
pub struct Schedule {
    /// The nodes, each after its successors.
    pub order: Vec<usize>,
    /// The position of each node in `order`.
    pub rank: Vec<usize>,
}

/// Walks the whole graph depth-first. Gives a schedule when the graph has
/// no cycle, and otherwise a cycle, each of its nodes once, in the direction
/// of the edges.
pub fn schedule(adj: &Vec<Vec<usize>>) -> (r: Result<Schedule, Vec<usize>>)
    requires
        closed_graph(adj@),
    ensures
        match r {
            Ok(s) => is_ranking(adj@, s.rank@) && is_listing(s.order@, s.rank@),
            Err(c) => is_cycle(adj@, c@) && simple_within(c@, adj@.len()),
        },
        r is Ok <==> acyclic(adj@),
{
    let n = adj.len();
    let mut marks: Vec<Mark> = Vec::new();
    let mut rank: Vec<usize> = Vec::new();
    let mut i: usize = 0;
    while i < n
        invariant
            i <= n,
            marks@.len() == i,
            rank@.len() == i,
            forall|j: int| 0 <= j < i ==> marks@[j] == Mark::Unvisited,
        decreases n - i,
    {
        marks.push(Mark::Unvisited);
        rank.push(0);
        i = i + 1;
    }
    let mut walk = Walk { marks, rank, order: Vec::new(), path: Vec::new() };
    proof {
        lemma_pending_all(walk.marks@);
    }
    let mut start: usize = 0;
    while start < n
        invariant
            n == adj@.len(),
            start <= n,
            walk.inv(adj@),
            walk.path@.len() == 0,
            forall|j: int| 0 <= j < start ==> walk.marks@[j] != Mark::Unvisited,
        decreases n - start,
    {
        match walk.marks[start] {
            Mark::Unvisited => {
                let ghost before = walk;
                match visit(adj, &mut walk, start) {
                    Some(cycle) => {
                        assert(is_cycle(adj@, cycle@));
                        return Err(cycle);
                    },
                    None => {
                        assert(walk.keeps(before));
                    },
                }
            },
            _ => {},
        }
        start = start + 1;
    }
    proof {
        assert forall|j: int| 0 <= j < n implies walk.marks@[j] == Mark::Finished by {
            if walk.marks@[j] == Mark::Active {
                assert(walk.rank@[j] < walk.path@.len());
            }
        }
        lemma_pending_none(walk.marks@);
        assert forall|j: int| 0 <= j < n implies (#[trigger] walk.rank@[j]) < walk.order@.len()
            && walk.order@[walk.rank@[j] as int] == j by {
            assert(walk.marks@[j] == Mark::Finished);
        }
        assert(is_listing(walk.order@, walk.rank@));
        assert forall|j: int, k: int| 0 <= j < n && 0 <= k < adj@[j]@.len() implies walk.rank@[(
        #[trigger] adj@[j]@[k]) as int] < walk.rank@[j] by {
            assert(walk.marks@[j] == Mark::Finished);
        }
        lemma_ranking_implies_acyclic(adj@, walk.rank@);
    }
    Ok(Schedule { order: walk.order, rank: walk.rank })
}

} // verus!
