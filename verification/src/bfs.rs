//! Breadth-first traversal: three-state marking and a FIFO work queue.
//!
//! The meaning of a traversal is fixed by two specification functions:
//! `bfs_scan` walks one node's successor row in insertion order, reporting
//! every outgoing edge — in an undirected graph both directions of an edge
//! are therefore each reported once, from each endpoint — and collecting the
//! still-undiscovered destinations in queue order; `bfs_loop` drains the
//! queue, appending each drained node's edge reports, then its own vertex
//! visit.  Only nodes reachable from the root are ever visited.  The
//! executable traversal is proved to produce exactly this event sequence.

use crate::errors::GraphError;
use crate::graph::Graph;
use crate::node_value::NodeKey;
use vstd::prelude::*;

verus! {

/// Where a node stands during a breadth-first traversal.
#[derive(Clone, Copy, Debug, PartialEq, Eq, Structural)]
pub enum BFSTraversalState {
    Undiscovered,
    Discovered,
    Processed,
}

/// One callback-point of a breadth-first traversal, in the order they fire:
/// an edge observed from the node being drained, or a node's own visit.
#[derive(Clone, Copy, Debug, PartialEq, Eq, Structural)]
pub enum BFSEvent {
    Edge(usize, usize),
    Vertex(usize),
}

/// The all-untouched state vector for `n` nodes.
pub open spec fn initial_bfs_state(n: nat) -> Seq<BFSTraversalState> {
    Seq::new(n, |i: int| BFSTraversalState::Undiscovered)
}

/// How many nodes are still undiscovered.
pub open spec fn bfs_undiscovered_count(st: Seq<BFSTraversalState>) -> nat
    decreases st.len(),
{
    if st.len() == 0 {
        0
    } else {
        bfs_undiscovered_count(st.drop_last()) + if st.last() is Undiscovered {
            1nat
        } else {
            0nat
        }
    }
}

/// Replacing an in-range entry by a non-`Undiscovered` one lowers the
/// undiscovered count by one exactly when the old entry was undiscovered.
proof fn lemma_bfs_count_update(st: Seq<BFSTraversalState>, i: int, v: BFSTraversalState)
    requires
        0 <= i < st.len(),
        !(v is Undiscovered),
    ensures
        bfs_undiscovered_count(st.update(i, v)) == bfs_undiscovered_count(st) - (
        if st[i] is Undiscovered {
            1int
        } else {
            0int
        }),
    decreases st.len(),
{
    let st2 = st.update(i, v);
    if i == st.len() - 1 {
        assert(st2.drop_last() =~= st.drop_last());
        assert(st2.last() == v);
    } else {
        lemma_bfs_count_update(st.drop_last(), i, v);
        assert(st2.drop_last() =~= st.drop_last().update(i, v));
        assert(st2.last() == st.last());
    }
}

/// Scanning `u`'s successor row from cursor `k` on: the edge report for
/// every remaining entry, the state with every undiscovered destination
/// marked `Discovered`, and those destinations in the order they were met.
pub open spec fn bfs_scan(
    adj: Seq<Seq<usize>>,
    st: Seq<BFSTraversalState>,
    u: usize,
    k: int,
) -> (Seq<BFSEvent>, Seq<BFSTraversalState>, Seq<usize>)
    decreases bfs_undiscovered_count(st), (if (u as int) < adj.len() {
        adj[u as int].len() - k
    } else {
        0int
    })
    via bfs_scan_decreases
{
    if (u as int) >= adj.len() || !(0 <= k < adj[u as int].len()) {
        (Seq::<BFSEvent>::empty(), st, Seq::<usize>::empty())
    } else {
        let v = adj[u as int][k];
        if (v as int) >= st.len() {
            bfs_scan(adj, st, u, k + 1)
        } else if st[v as int] is Undiscovered {
            let st2 = st.update(v as int, BFSTraversalState::Discovered);
            let (evs, st3, q3) = bfs_scan(adj, st2, u, k + 1);
            (seq![BFSEvent::Edge(u, v)] + evs, st3, seq![v] + q3)
        } else {
            let (evs, st3, q3) = bfs_scan(adj, st, u, k + 1);
            (seq![BFSEvent::Edge(u, v)] + evs, st3, q3)
        }
    }
}

#[via_fn]
proof fn bfs_scan_decreases(adj: Seq<Seq<usize>>, st: Seq<BFSTraversalState>, u: usize, k: int) {
    if (u as int) < adj.len() && 0 <= k < adj[u as int].len() {
        let v = adj[u as int][k];
        if (v as int) < st.len() && st[v as int] is Undiscovered {
            lemma_bfs_count_update(st, v as int, BFSTraversalState::Discovered);
        }
    }
}

/// Scanning discovers exactly the destinations it hands back for the queue.
proof fn lemma_bfs_scan_count(adj: Seq<Seq<usize>>, st: Seq<BFSTraversalState>, u: usize, k: int)
    ensures
        ({
            let r = bfs_scan(adj, st, u, k);
            &&& bfs_undiscovered_count(r.1) + r.2.len() == bfs_undiscovered_count(st)
            &&& r.1.len() == st.len()
        }),
    decreases bfs_undiscovered_count(st), (if (u as int) < adj.len() {
        adj[u as int].len() - k
    } else {
        0int
    }),
{
    if (u as int) < adj.len() && 0 <= k < adj[u as int].len() {
        let v = adj[u as int][k];
        if (v as int) >= st.len() {
            lemma_bfs_scan_count(adj, st, u, k + 1);
        } else if st[v as int] is Undiscovered {
            let st2 = st.update(v as int, BFSTraversalState::Discovered);
            lemma_bfs_count_update(st, v as int, BFSTraversalState::Discovered);
            lemma_bfs_scan_count(adj, st2, u, k + 1);
        } else {
            lemma_bfs_scan_count(adj, st, u, k + 1);
        }
    }
}

/// Draining the queue front to back: each drained node's remaining edge
/// reports, then its vertex visit, with its freshly discovered successors
/// appended to the queue.
pub open spec fn bfs_loop(
    adj: Seq<Seq<usize>>,
    st: Seq<BFSTraversalState>,
    q: Seq<usize>,
) -> (Seq<BFSEvent>, Seq<BFSTraversalState>)
    decreases bfs_undiscovered_count(st), q.len(),
    via bfs_loop_decreases
{
    if q.len() == 0 {
        (Seq::<BFSEvent>::empty(), st)
    } else {
        let u = q[0];
        let (evs, st2, newq) = bfs_scan(adj, st, u, 0);
        let st3 = if (u as int) < st2.len() {
            st2.update(u as int, BFSTraversalState::Processed)
        } else {
            st2
        };
        let (evs2, st4) = bfs_loop(adj, st3, q.drop_first() + newq);
        (evs + seq![BFSEvent::Vertex(u)] + evs2, st4)
    }
}

#[via_fn]
proof fn bfs_loop_decreases(adj: Seq<Seq<usize>>, st: Seq<BFSTraversalState>, q: Seq<usize>) {
    if q.len() > 0 {
        let u = q[0];
        lemma_bfs_scan_count(adj, st, u, 0);
        let r = bfs_scan(adj, st, u, 0);
        if (u as int) < r.1.len() {
            lemma_bfs_count_update(r.1, u as int, BFSTraversalState::Processed);
        }
    }
}

/// The event sequence of a breadth-first traversal from `root` on a fresh
/// state: the root is discovered and enqueued, then the queue is drained.
pub open spec fn bfs_traversal(adj: Seq<Seq<usize>>, root: usize) -> Seq<BFSEvent> {
    let st0 = initial_bfs_state(adj.len()).update(root as int, BFSTraversalState::Discovered);
    bfs_loop(adj, st0, seq![root]).0
}

/// The nodes a traversal visits, in visit order.
pub open spec fn vertex_visits(evs: Seq<BFSEvent>) -> Seq<usize>
    decreases evs.len(),
{
    if evs.len() == 0 {
        Seq::<usize>::empty()
    } else {
        vertex_visits(evs.drop_last()) + (match evs.last() {
            BFSEvent::Vertex(u) => seq![u],
            BFSEvent::Edge(a, b) => Seq::<usize>::empty(),
        })
    }
}

/// Whether `b` lies at most `k` edges away from `a`.
pub open spec fn reach_within(adj: Seq<Seq<usize>>, a: usize, b: usize, k: nat) -> bool
    decreases k,
{
    a == b || (k > 0 && exists|p: usize|
        (p as int) < adj.len() && reach_within(adj, a, p, (k - 1) as nat) && adj[p as int].contains(
            b,
        ))
}

/// Whether some walk leads from `a` to `b`.
pub open spec fn reachable(adj: Seq<Seq<usize>>, a: usize, b: usize) -> bool {
    exists|k: nat| reach_within(adj, a, b, k)
}

/// Whether `d` is exactly the graph distance from `a` to `b`: within `d`
/// edges, but not within fewer.
pub open spec fn is_dist(adj: Seq<Seq<usize>>, a: usize, b: usize, d: nat) -> bool {
    reach_within(adj, a, b, d) && (d == 0 || !reach_within(adj, a, b, (d - 1) as nat))
}

/// The graph distance from `a` to `b`; meaningful whenever `b` is reachable.
pub open spec fn dist_of(adj: Seq<Seq<usize>>, a: usize, b: usize) -> nat {
    choose|d: nat| is_dist(adj, a, b, d)
}

/// Reachability within `k1` edges is reachability within any larger bound.
proof fn lemma_reach_mono(adj: Seq<Seq<usize>>, a: usize, b: usize, k1: nat, k2: nat)
    requires
        reach_within(adj, a, b, k1),
        k1 <= k2,
    ensures
        reach_within(adj, a, b, k2),
    decreases k1,
{
    if a == b {
    } else {
        let p = choose|p: usize|
            (p as int) < adj.len() && reach_within(adj, a, p, (k1 - 1) as nat) && adj[p as int].contains(
                b,
            );
        lemma_reach_mono(adj, a, p, (k1 - 1) as nat, (k2 - 1) as nat);
    }
}

/// Every reachable node has an exact distance, no larger than any witness.
proof fn lemma_dist_exists(adj: Seq<Seq<usize>>, a: usize, b: usize, k: nat)
    requires
        reach_within(adj, a, b, k),
    ensures
        exists|d: nat| #[trigger] is_dist(adj, a, b, d) && d <= k,
    decreases k,
{
    if k == 0 {
        assert(is_dist(adj, a, b, 0));
    } else if reach_within(adj, a, b, (k - 1) as nat) {
        lemma_dist_exists(adj, a, b, (k - 1) as nat);
    } else {
        assert(is_dist(adj, a, b, k));
    }
}

/// Exact distances are unique.
proof fn lemma_dist_unique(adj: Seq<Seq<usize>>, a: usize, b: usize, d1: nat, d2: nat)
    requires
        is_dist(adj, a, b, d1),
        is_dist(adj, a, b, d2),
    ensures
        d1 == d2,
{
    if d1 < d2 {
        lemma_reach_mono(adj, a, b, d1, (d2 - 1) as nat);
    }
    if d2 < d1 {
        lemma_reach_mono(adj, a, b, d2, (d1 - 1) as nat);
    }
}

/// For a reachable node, `dist_of` really is its exact distance.
proof fn lemma_dist_of(adj: Seq<Seq<usize>>, a: usize, b: usize)
    requires
        reachable(adj, a, b),
    ensures
        is_dist(adj, a, b, dist_of(adj, a, b)),
{
    let k = choose|k: nat| reach_within(adj, a, b, k);
    lemma_dist_exists(adj, a, b, k);
    let d0 = choose|d: nat| #[trigger] is_dist(adj, a, b, d) && d <= k;
    assert(is_dist(adj, a, b, d0));
}

/// One more edge keeps a node reachable.
proof fn lemma_reachable_step(adj: Seq<Seq<usize>>, a: usize, p: usize, b: usize)
    requires
        reachable(adj, a, p),
        (p as int) < adj.len(),
        adj[p as int].contains(b),
    ensures
        reachable(adj, a, b),
{
    let k = choose|k: nat| reach_within(adj, a, p, k);
    assert(reach_within(adj, a, b, k + 1));
}

/// Visits split over a split event sequence.
proof fn lemma_visits_concat(a: Seq<BFSEvent>, b: Seq<BFSEvent>)
    ensures
        vertex_visits(a + b) == vertex_visits(a) + vertex_visits(b),
    decreases b.len(),
{
    if b.len() == 0 {
        assert(a + b =~= a);
        assert(vertex_visits(a) + vertex_visits(b) =~= vertex_visits(a));
    } else {
        lemma_visits_concat(a, b.drop_last());
        assert((a + b).drop_last() =~= a + b.drop_last());
        assert((a + b).last() == b.last());
        match b.last() {
            BFSEvent::Vertex(u) => {
                assert((vertex_visits(a) + vertex_visits(b.drop_last())) + seq![u]
                    =~= vertex_visits(a) + (vertex_visits(b.drop_last()) + seq![u]));
            },
            BFSEvent::Edge(x, y) => {
                assert((vertex_visits(a) + vertex_visits(b.drop_last()))
                    + Seq::<usize>::empty() =~= vertex_visits(a) + (vertex_visits(b.drop_last())
                    + Seq::<usize>::empty()));
            },
        }
    }
}

/// Membership in a concatenation is membership in one of the parts.
proof fn lemma_contains_concat(a: Seq<usize>, b: Seq<usize>, x: usize)
    ensures
        (a + b).contains(x) <==> (a.contains(x) || b.contains(x)),
{
    if a.contains(x) {
        let i = choose|i: int| 0 <= i < a.len() && a[i] == x;
        assert((a + b)[i] == x);
    }
    if b.contains(x) {
        let i = choose|i: int| 0 <= i < b.len() && b[i] == x;
        assert((a + b)[a.len() + i] == x);
    }
    if (a + b).contains(x) {
        let i = choose|i: int| 0 <= i < (a + b).len() && (a + b)[i] == x;
        if i < a.len() {
            assert(a[i] == x);
        } else {
            assert(b[i - a.len()] == x);
        }
    }
}

/// Dropping the front keeps every other member.
proof fn lemma_contains_drop_first(q: Seq<usize>, x: usize)
    requires
        q.len() > 0,
    ensures
        q.drop_first().contains(x) ==> q.contains(x),
        q.contains(x) && q[0] != x ==> q.drop_first().contains(x),
{
    if q.drop_first().contains(x) {
        let i = choose|i: int| 0 <= i < q.drop_first().len() && q.drop_first()[i] == x;
        assert(q[i + 1] == x);
    }
    if q.contains(x) && q[0] != x {
        let i = choose|i: int| 0 <= i < q.len() && q[i] == x;
        assert(q.drop_first()[i - 1] == x);
    }
}

/// What one row scan does to the traversal: it reports edges only (no
/// visits), touches no node except the still-undiscovered successors it
/// marks `Discovered` and hands back for the queue — pairwise distinct
/// successors of the scanned node — and leaves no successor of the scanned
/// row untouched.
proof fn lemma_bfs_scan_effect(adj: Seq<Seq<usize>>, st: Seq<BFSTraversalState>, u: usize, k: int)
    requires
        st.len() <= usize::MAX,
    ensures
        ({
            let r = bfs_scan(adj, st, u, k);
            &&& r.1.len() == st.len()
            &&& vertex_visits(r.0) == Seq::<usize>::empty()
            &&& forall|i: int|
                0 <= i < st.len() ==> ((#[trigger] r.1[i]) == st[i] || (st[i] is Undiscovered
                    && r.1[i] is Discovered && r.2.contains(i as usize)))
            &&& forall|j: int|
                0 <= j < r.2.len() ==> {
                    let v = #[trigger] r.2[j];
                    &&& (v as int) < st.len()
                    &&& st[v as int] is Undiscovered
                    &&& r.1[v as int] is Discovered
                    &&& (u as int) < adj.len() && adj[u as int].contains(v)
                }
            &&& crate::graph::distinct_seq(r.2)
            &&& forall|m: int|
                (u as int) < adj.len() && 0 <= k <= m < adj[u as int].len() && (adj[u as int][m]
                    as int) < st.len() ==> !((#[trigger] r.1[adj[u as int][m] as int])
                    is Undiscovered)
        }),
    decreases bfs_undiscovered_count(st), (if (u as int) < adj.len() {
        adj[u as int].len() - k
    } else {
        0int
    }),
{
    if (u as int) < adj.len() && 0 <= k < adj[u as int].len() {
        let v = adj[u as int][k];
        assert(adj[u as int].contains(v));
        if (v as int) >= st.len() {
            lemma_bfs_scan_effect(adj, st, u, k + 1);
        } else if st[v as int] is Undiscovered {
            let st2 = st.update(v as int, BFSTraversalState::Discovered);
            lemma_bfs_count_update(st, v as int, BFSTraversalState::Discovered);
            lemma_bfs_scan_effect(adj, st2, u, k + 1);
            let r2 = bfs_scan(adj, st2, u, k + 1);
            let r = bfs_scan(adj, st, u, k);
            assert(r.2 == seq![v] + r2.2);
            assert(r.2[0] == v);
            assert(seq![BFSEvent::Edge(u, v)].drop_last() =~= Seq::<BFSEvent>::empty());
            assert(seq![BFSEvent::Edge(u, v)].last() == BFSEvent::Edge(u, v));
            assert(vertex_visits(Seq::<BFSEvent>::empty()) =~= Seq::<usize>::empty());
            assert(vertex_visits(seq![BFSEvent::Edge(u, v)]) =~= Seq::<usize>::empty());
            lemma_visits_concat(seq![BFSEvent::Edge(u, v)], r2.0);
            assert(vertex_visits(r.0) =~= Seq::<usize>::empty());
            assert(!(r2.1[v as int] is Undiscovered)) by {
                assert(r2.1[v as int] == st2[v as int] || (st2[v as int] is Undiscovered
                    && r2.1[v as int] is Discovered));
            };
            assert forall|i: int|
                0 <= i < st.len() implies ((#[trigger] r.1[i]) == st[i] || (st[i] is Undiscovered
                && r.1[i] is Discovered && r.2.contains(i as usize))) by {
                lemma_contains_concat(seq![v], r2.2, i as usize);
                if i == v as int {
                    assert(r.2.contains(v));
                }
            };
            assert forall|j: int| 0 <= j < r.2.len() implies {
                let w = #[trigger] r.2[j];
                &&& (w as int) < st.len()
                &&& st[w as int] is Undiscovered
                &&& r.1[w as int] is Discovered
                &&& (u as int) < adj.len() && adj[u as int].contains(w)
            } by {
                if j == 0 {
                    assert(r.2[0] == v);
                    assert(r2.1[v as int] == st2[v as int] || (st2[v as int] is Undiscovered
                        && r2.1[v as int] is Discovered));
                } else {
                    assert(r.2[j] == r2.2[j - 1]);
                }
            };
            assert forall|p: int, q: int| 0 <= p < q < r.2.len() implies r.2[p] != r.2[q] by {
                if p == 0 {
                    assert(r.2[q] == r2.2[q - 1]);
                    assert(st2[r2.2[q - 1] as int] is Undiscovered);
                }
            };
            assert(crate::graph::distinct_seq(r.2));
        } else {
            lemma_bfs_scan_effect(adj, st, u, k + 1);
            let r2 = bfs_scan(adj, st, u, k + 1);
            let r = bfs_scan(adj, st, u, k);
            assert(seq![BFSEvent::Edge(u, v)].drop_last() =~= Seq::<BFSEvent>::empty());
            assert(seq![BFSEvent::Edge(u, v)].last() == BFSEvent::Edge(u, v));
            assert(vertex_visits(Seq::<BFSEvent>::empty()) =~= Seq::<usize>::empty());
            assert(vertex_visits(seq![BFSEvent::Edge(u, v)]) =~= Seq::<usize>::empty());
            lemma_visits_concat(seq![BFSEvent::Edge(u, v)], r2.0);
            assert(vertex_visits(r.0) =~= Seq::<usize>::empty());
            assert(!(r2.1[v as int] is Undiscovered)) by {
                assert(r2.1[v as int] == st[v as int] || (st[v as int] is Undiscovered
                    && r2.1[v as int] is Discovered));
            };
        }
    }
}

/// What draining the queue does: nodes already processed stay so, every
/// drained node is visited exactly once and ends `Processed`, nobody is
/// left `Discovered`, nothing undiscovered becomes discovered without being
/// reachable from `root`, and every processed node's successors are at
/// least discovered.
#[verifier::rlimit(100)]
#[verifier::spinoff_prover]
proof fn lemma_bfs_loop_effect(
    adj: Seq<Seq<usize>>,
    root: usize,
    st: Seq<BFSTraversalState>,
    q: Seq<usize>,
    qd: Seq<nat>,
)
    requires
        st.len() == adj.len(),
        st.len() <= usize::MAX,
        crate::graph::adjacency_wf(adj),
        crate::graph::distinct_seq(q),
        forall|j: int|
            0 <= j < q.len() ==> ((#[trigger] q[j]) as int) < st.len() && st[q[j] as int]
                is Discovered,
        forall|i: int|
            0 <= i < st.len() ==> ((#[trigger] st[i]) is Discovered <==> q.contains(i as usize)),
        forall|i: int|
            0 <= i < st.len() && !((#[trigger] st[i]) is Undiscovered) ==> reachable(
                adj,
                root,
                i as usize,
            ),
        forall|i: int, m: int|
            0 <= i < st.len() && (#[trigger] st[i]) is Processed && 0 <= m < adj[i].len()
                ==> !(st[(#[trigger] adj[i][m]) as int] is Undiscovered),
        qd.len() == q.len(),
        forall|j: int| 0 <= j < q.len() ==> is_dist(adj, root, #[trigger] q[j], qd[j]),
        forall|p: int, r3: int| 0 <= p <= r3 < qd.len() ==> #[trigger] qd[p] <= #[trigger] qd[r3],
        forall|j: int| 0 <= j < qd.len() ==> #[trigger] qd[j] <= qd[0] + 1,
        forall|w: usize|
            q.len() > 0 && (w as int) < st.len() && reachable(adj, root, w) && #[trigger] dist_of(
                adj,
                root,
                w,
            ) <= qd[0] ==> !(st[w as int] is Undiscovered),
    ensures
        ({
            let r = bfs_loop(adj, st, q);
            let visits = vertex_visits(r.0);
            &&& r.1.len() == st.len()
            &&& forall|i: int|
                0 <= i < st.len() ==> ((#[trigger] r.1[i]) is Processed <==> (st[i] is Processed
                    || visits.contains(i as usize)))
            &&& forall|i: int| 0 <= i < st.len() ==> !((#[trigger] r.1[i]) is Discovered)
            &&& forall|i: int|
                0 <= i < st.len() && (#[trigger] r.1[i]) is Undiscovered ==> st[i] is Undiscovered
            &&& forall|i: int|
                0 <= i < st.len() && !((#[trigger] r.1[i]) is Undiscovered) ==> reachable(
                    adj,
                    root,
                    i as usize,
                )
            &&& forall|i: int, m: int|
                0 <= i < st.len() && (#[trigger] r.1[i]) is Processed && 0 <= m < adj[i].len()
                    ==> !(r.1[(#[trigger] adj[i][m]) as int] is Undiscovered)
            &&& crate::graph::distinct_seq(visits)
            &&& forall|j: int|
                0 <= j < visits.len() ==> ((#[trigger] visits[j]) as int) < st.len() && !(
                st[visits[j] as int] is Processed)
            &&& q.len() > 0 ==> forall|j: int|
                0 <= j < visits.len() ==> qd[0] <= dist_of(adj, root, #[trigger] visits[j])
            &&& forall|p: int, r3: int|
                0 <= p <= r3 < visits.len() ==> dist_of(adj, root, #[trigger] visits[p]) <= dist_of(
                    adj,
                    root,
                    #[trigger] visits[r3],
                )
        }),
    decreases bfs_undiscovered_count(st), q.len(),
{
    if q.len() > 0 {
        let u = q[0];
        assert(q.contains(u));
        lemma_bfs_scan_effect(adj, st, u, 0);
        lemma_bfs_scan_count(adj, st, u, 0);
        let rs = bfs_scan(adj, st, u, 0);
        let st2 = rs.1;
        let newq = rs.2;
        let st3 = st2.update(u as int, BFSTraversalState::Processed);
        lemma_bfs_count_update(st2, u as int, BFSTraversalState::Processed);
        let q2 = q.drop_first() + newq;
        // the new queue is distinct, discovered, and exactly the discovered set
        assert forall|p: int, r2: int| 0 <= p < r2 < q2.len() implies q2[p] != q2[r2] by {
            if p < q.drop_first().len() {
                assert(q2[p] == q[p + 1]);
                if r2 < q.drop_first().len() {
                    assert(q2[r2] == q[r2 + 1]);
                } else {
                    assert(q2[r2] == newq[r2 - q.drop_first().len()]);
                    assert(st[q2[r2] as int] is Undiscovered);
                    assert(st[q2[p] as int] is Discovered);
                }
            } else {
                assert(q2[p] == newq[p - q.drop_first().len()]);
                assert(q2[r2] == newq[r2 - q.drop_first().len()]);
            }
        };
        assert forall|j: int| 0 <= j < q2.len() implies ((#[trigger] q2[j]) as int) < st3.len()
            && st3[q2[j] as int] is Discovered by {
            if j < q.drop_first().len() {
                assert(q2[j] == q[j + 1]);
                assert(q[j + 1] != u);
                assert(st2[q2[j] as int] == st[q2[j] as int]);
            } else {
                assert(q2[j] == newq[j - q.drop_first().len()]);
                assert(st[q2[j] as int] is Undiscovered);
                assert(q2[j] != u);
            }
        };
        assert forall|i: int| 0 <= i < st3.len() implies ((#[trigger] st3[i]) is Discovered
            <==> q2.contains(i as usize)) by {
            assert((i as usize) as int == i);
            lemma_contains_concat(q.drop_first(), newq, i as usize);
            lemma_contains_drop_first(q, i as usize);
            if st3[i] is Discovered {
                assert(i != u as int);
                assert(q[0] != i as usize);
                if st[i] is Discovered {
                    assert(q.contains(i as usize));
                    assert(q[0] == u);
                    assert(q.drop_first().contains(i as usize));
                } else {
                    assert(st[i] is Undiscovered && newq.contains(i as usize));
                }
            }
            if q2.contains(i as usize) {
                if q.drop_first().contains(i as usize) {
                    assert(q.contains(i as usize));
                    assert(st[i] is Discovered);
                    assert(i != u as int);
                    assert(st2[i] == st[i]);
                } else {
                    assert(newq.contains(i as usize));
                    let j = choose|j: int| 0 <= j < newq.len() && newq[j] == i as usize;
                    assert((newq[j] as int) == i);
                    assert(st2[i] is Discovered);
                    assert(i != u as int);
                }
            }
        };
        // reachability of everything newly discovered
        assert(st[u as int] is Discovered);
        assert(reachable(adj, root, u));
        assert forall|i: int|
            0 <= i < st3.len() && !((#[trigger] st3[i]) is Undiscovered) implies reachable(
            adj,
            root,
            i as usize,
        ) by {
            if i == u as int {
            } else if st2[i] == st[i] {
                assert(!(st[i] is Undiscovered));
            } else {
                assert(newq.contains(i as usize));
                let j = choose|j: int| 0 <= j < newq.len() && newq[j] == i as usize;
                assert((newq[j] as int) == i);
                assert(adj[u as int].contains(i as usize));
                lemma_reachable_step(adj, root, u, i as usize);
            }
        };
        // closure of the processed set
        assert forall|i: int, m: int|
            0 <= i < st3.len() && (#[trigger] st3[i]) is Processed && 0 <= m < adj[i].len()
                implies !(st3[(#[trigger] adj[i][m]) as int] is Undiscovered) by {
            assert(crate::graph::row_wf(adj[i], adj.len()));
            let w = adj[i][m];
            if i == u as int {
                assert(!(st2[w as int] is Undiscovered));
            } else {
                assert(st[i] is Processed);
                assert(!(st[w as int] is Undiscovered));
                assert(st2[w as int] == st[w as int] || st2[w as int] is Discovered);
            }
        };
        // the dequeued node sits exactly at the frontier distance
        let d = qd[0];
        assert(is_dist(adj, root, u, d));
        lemma_dist_of(adj, root, u);
        lemma_dist_unique(adj, root, u, d, dist_of(adj, root, u));
        assert(dist_of(adj, root, u) == d);
        // every newly discovered node lies exactly one edge beyond it
        assert forall|j: int| 0 <= j < newq.len() implies is_dist(
            adj,
            root,
            #[trigger] newq[j],
            d + 1,
        ) && dist_of(adj, root, newq[j]) == d + 1 by {
            let v = newq[j];
            assert(adj[u as int].contains(v));
            assert(reach_within(adj, root, u, d));
            assert((u as int) < adj.len());
            assert(reach_within(adj, root, v, d + 1));
            if reach_within(adj, root, v, d) {
                lemma_dist_exists(adj, root, v, d);
                let dd = choose|dd: nat| #[trigger] is_dist(adj, root, v, dd) && dd <= d;
                assert(reachable(adj, root, v));
                lemma_dist_of(adj, root, v);
                lemma_dist_unique(adj, root, v, dd, dist_of(adj, root, v));
                assert(dist_of(adj, root, v) <= d);
                assert(!(st[v as int] is Undiscovered));
                assert(false);
            }
            assert(is_dist(adj, root, v, d + 1));
            assert(reachable(adj, root, v));
            lemma_dist_of(adj, root, v);
            lemma_dist_unique(adj, root, v, d + 1, dist_of(adj, root, v));
        };
        let qd2 = qd.drop_first() + Seq::<nat>::new(newq.len(), |j: int| d + 1);
        assert(qd2.len() == q2.len());
        assert forall|j: int| 0 <= j < q2.len() implies is_dist(
            adj,
            root,
            #[trigger] q2[j],
            qd2[j],
        ) by {
            if j < q.drop_first().len() {
                assert(q2[j] == q[j + 1]);
                assert(qd2[j] == qd[j + 1]);
            } else {
                assert(q2[j] == newq[j - q.drop_first().len()]);
                assert(qd2[j] == d + 1);
            }
        };
        assert forall|p: int, r3: int| 0 <= p <= r3 < qd2.len() implies #[trigger] qd2[p]
            <= #[trigger] qd2[r3] by {
            if p < q.drop_first().len() {
                assert(qd2[p] == qd[p + 1]);
                if r3 < q.drop_first().len() {
                    assert(qd2[r3] == qd[r3 + 1]);
                } else {
                    assert(qd2[r3] == d + 1);
                    assert(qd[p + 1] <= qd[0] + 1);
                }
            } else {
                assert(qd2[p] == d + 1);
                assert(qd2[r3] == d + 1);
            }
        };
        assert(q2.len() > 0 ==> d <= qd2[0] <= d + 1) by {
            if q2.len() > 0 {
                if 0 < q.drop_first().len() {
                    assert(qd2[0] == qd[1]);
                    assert(qd[0] <= qd[1] <= qd[0] + 1);
                } else {
                    assert(qd2[0] == d + 1);
                }
            }
        };
        assert forall|j: int| 0 <= j < qd2.len() implies #[trigger] qd2[j] <= qd2[0] + 1 by {
            if j < q.drop_first().len() {
                assert(qd2[j] == qd[j + 1]);
                assert(qd[j + 1] <= qd[0] + 1);
            } else {
                assert(qd2[j] == d + 1);
            }
        };
        // the frontier completeness carries over to the new head distance
        assert forall|w: usize|
            q2.len() > 0 && (w as int) < st3.len() && reachable(adj, root, w) && #[trigger] dist_of(
                adj,
                root,
                w,
            ) <= qd2[0] implies !(st3[w as int] is Undiscovered) by {
            lemma_dist_of(adj, root, w);
            let dw = dist_of(adj, root, w);
            if dw <= d {
                assert(!(st[w as int] is Undiscovered));
                assert(!(st2[w as int] is Undiscovered));
            } else {
                assert(qd2[0] == d + 1 && dw == d + 1);
                assert(reach_within(adj, root, w, d + 1));
                if w == root {
                    assert(reach_within(adj, root, w, 0));
                    lemma_dist_exists(adj, root, w, 0);
                    let dr = choose|dr: nat| #[trigger] is_dist(adj, root, w, dr) && dr <= 0;
                    lemma_dist_unique(adj, root, w, dr, dw);
                    assert(false);
                }
                let p = choose|p: usize|
                    (p as int) < adj.len() && reach_within(adj, root, p, ((d + 1) - 1) as nat)
                        && adj[p as int].contains(w);
                assert(((d + 1) - 1) as nat == d);
                assert(reach_within(adj, root, p, d));
                lemma_dist_exists(adj, root, p, d);
                let dp = choose|dp: nat| #[trigger] is_dist(adj, root, p, dp) && dp <= d;
                assert(reachable(adj, root, p));
                lemma_dist_of(adj, root, p);
                lemma_dist_unique(adj, root, p, dp, dist_of(adj, root, p));
                assert(dist_of(adj, root, p) <= d);
                assert(crate::graph::row_wf(adj[p as int], adj.len()));
                let m = choose|m: int| 0 <= m < adj[p as int].len() && adj[p as int][m] == w;
                if p == u {
                    assert(!(st2[adj[u as int][m] as int] is Undiscovered));
                    assert(!(st2[w as int] is Undiscovered));
                } else {
                    assert(!(st[p as int] is Undiscovered));
                    assert(!(st2[p as int] is Undiscovered));
                    assert(!(st3[p as int] is Undiscovered));
                    if st3[p as int] is Discovered {
                        assert(q2.contains(p));
                        let jp = choose|jp: int| 0 <= jp < q2.len() && q2[jp] == p;
                        assert(is_dist(adj, root, q2[jp], qd2[jp]));
                        lemma_dist_unique(adj, root, p, qd2[jp], dist_of(adj, root, p));
                        assert(qd2[0] <= qd2[jp]);
                        assert(false);
                    }
                    assert(st3[p as int] is Processed);
                    assert(!(st3[adj[p as int][m] as int] is Undiscovered));
                }
            }
        };
        lemma_bfs_loop_effect(adj, root, st3, q2, qd2);
        let r2 = bfs_loop(adj, st3, q2);
        let r = bfs_loop(adj, st, q);
        assert(r.0 == rs.0 + seq![BFSEvent::Vertex(u)] + r2.0);
        lemma_visits_concat(rs.0 + seq![BFSEvent::Vertex(u)], r2.0);
        lemma_visits_concat(rs.0, seq![BFSEvent::Vertex(u)]);
        assert(seq![BFSEvent::Vertex(u)].drop_last() =~= Seq::<BFSEvent>::empty());
        assert(seq![BFSEvent::Vertex(u)].last() == BFSEvent::Vertex(u));
        assert(vertex_visits(Seq::<BFSEvent>::empty()) =~= Seq::<usize>::empty());
        assert(vertex_visits(seq![BFSEvent::Vertex(u)]) =~= seq![u]);
        assert(vertex_visits(r.0) == (Seq::<usize>::empty() + seq![u]) + vertex_visits(r2.0));
        assert(vertex_visits(r.0) =~= seq![u] + vertex_visits(r2.0));
        let visits = vertex_visits(r.0);
        let visits2 = vertex_visits(r2.0);
        assert(visits =~= seq![u] + visits2);
        assert forall|i: int| 0 <= i < st.len() implies ((#[trigger] r.1[i]) is Processed <==> (
        st[i] is Processed || visits.contains(i as usize))) by {
            assert((i as usize) as int == i);
            lemma_contains_concat(seq![u], visits2, i as usize);
            if i == u as int {
                assert(seq![u][0] == u);
                assert(visits.contains(u));
                assert(st3[i] is Processed);
            }
            if visits2.contains(i as usize) || st3[i] is Processed || st[i] is Processed {
            }
        };
        assert forall|p: int, r3: int| 0 <= p < r3 < visits.len() implies visits[p] != visits[r3]
            by {
            if p == 0 {
                assert(visits[0] == u);
                assert(visits[r3] == visits2[r3 - 1]);
                assert(!(st3[visits2[r3 - 1] as int] is Processed));
            } else {
                assert(visits[p] == visits2[p - 1]);
                assert(visits[r3] == visits2[r3 - 1]);
            }
        };
        assert(crate::graph::distinct_seq(visits));
        assert forall|j: int| 0 <= j < visits.len() implies ((#[trigger] visits[j]) as int)
            < st.len() && !(st[visits[j] as int] is Processed) by {
            if j == 0 {
                assert(visits[0] == u);
            } else {
                assert(visits[j] == visits2[j - 1]);
                assert(!(st3[visits2[j - 1] as int] is Processed));
                assert(st[visits[j] as int] is Processed ==> st3[visits[j] as int] is Processed);
            }
        };
        // visit order: the head first, everything after at least as far out
        assert forall|j: int| 0 <= j < visits.len() implies qd[0] <= dist_of(
            adj,
            root,
            #[trigger] visits[j],
        ) by {
            if j == 0 {
                assert(visits[0] == u);
            } else {
                assert(visits[j] == visits2[j - 1]);
                if q2.len() > 0 {
                    assert(qd2[0] <= dist_of(adj, root, visits2[j - 1]));
                } else {
                    assert(vertex_visits(bfs_loop(adj, st3, q2).0) =~= Seq::<usize>::empty());
                    assert(false);
                }
            }
        };
        assert forall|p: int, r3: int| 0 <= p <= r3 < visits.len() implies dist_of(
            adj,
            root,
            #[trigger] visits[p],
        ) <= dist_of(adj, root, #[trigger] visits[r3]) by {
            if p == 0 {
                assert(visits[0] == u);
                assert(qd[0] <= dist_of(adj, root, visits[r3]));
            } else {
                assert(visits[p] == visits2[p - 1]);
                assert(visits[r3] == visits2[r3 - 1]);
            }
        };
    } else {
        assert(vertex_visits(bfs_loop(adj, st, q).0) =~= Seq::<usize>::empty());
        assert forall|i: int| 0 <= i < st.len() implies !((#[trigger] st[i]) is Discovered) by {
            if st[i] is Discovered {
                assert(q.contains(i as usize));
            }
        };
    }
}

/// Whatever the traversal left processed and closed under successors holds
/// every node within `k` edges of the root.
proof fn lemma_reach_processed(
    adj: Seq<Seq<usize>>,
    root: usize,
    stf: Seq<BFSTraversalState>,
    v: usize,
    k: nat,
)
    requires
        stf.len() == adj.len(),
        stf.len() <= usize::MAX,
        crate::graph::adjacency_wf(adj),
        (root as int) < stf.len(),
        stf[root as int] is Processed,
        forall|i: int| 0 <= i < stf.len() ==> !((#[trigger] stf[i]) is Discovered),
        forall|i: int, m: int|
            0 <= i < stf.len() && (#[trigger] stf[i]) is Processed && 0 <= m < adj[i].len()
                ==> !(stf[(#[trigger] adj[i][m]) as int] is Undiscovered),
        reach_within(adj, root, v, k),
    ensures
        (v as int) < stf.len() && stf[v as int] is Processed,
    decreases k,
{
    if v == root {
    } else {
        let p = choose|p: usize|
            (p as int) < adj.len() && reach_within(adj, root, p, (k - 1) as nat) && adj[p as int].contains(
                v,
            );
        lemma_reach_processed(adj, root, stf, p, (k - 1) as nat);
        let m = choose|m: int| 0 <= m < adj[p as int].len() && adj[p as int][m] == v;
        assert(crate::graph::row_wf(adj[p as int], adj.len()));
        assert(!(stf[v as int] is Undiscovered));
        assert(!(stf[v as int] is Discovered));
    }
}

/// The two guarantees of the breadth-first visit order: every node
/// reachable from the root is visited exactly once and nothing else is,
/// and the visits come in non-decreasing graph distance from the root.
pub proof fn lemma_bfs_visit_order(adj: Seq<Seq<usize>>, root: usize)
    requires
        crate::graph::adjacency_wf(adj),
        (root as int) < adj.len(),
        adj.len() <= usize::MAX,
    ensures
        ({
            let visits = vertex_visits(bfs_traversal(adj, root));
            &&& crate::graph::distinct_seq(visits)
            &&& forall|v: usize|
                #[trigger] visits.contains(v) <==> ((v as int) < adj.len() && reachable(
                    adj,
                    root,
                    v,
                ))
            &&& forall|p: int, r3: int|
                0 <= p <= r3 < visits.len() ==> dist_of(adj, root, #[trigger] visits[p]) <= dist_of(
                    adj,
                    root,
                    #[trigger] visits[r3],
                )
        }),
{
    let st0 = initial_bfs_state(adj.len()).update(root as int, BFSTraversalState::Discovered);
    let q0 = seq![root];
    let qd0: Seq<nat> = seq![0nat];
    assert(q0[0] == root);
    assert(qd0[0] == 0);
    assert(reach_within(adj, root, root, 0));
    assert(reachable(adj, root, root));
    assert(is_dist(adj, root, root, 0));
    assert forall|i: int| 0 <= i < st0.len() implies ((#[trigger] st0[i]) is Discovered
        <==> q0.contains(i as usize)) by {
        assert((i as usize) as int == i);
        if q0.contains(i as usize) {
            let j = choose|j: int| 0 <= j < q0.len() && q0[j] == i as usize;
            assert(j == 0);
        }
        if st0[i] is Discovered {
            assert(i == root as int);
            assert(q0[0] == i as usize);
        }
    };
    assert forall|w: usize|
        q0.len() > 0 && (w as int) < st0.len() && reachable(adj, root, w) && #[trigger] dist_of(
            adj,
            root,
            w,
        ) <= qd0[0] implies !(st0[w as int] is Undiscovered) by {
        lemma_dist_of(adj, root, w);
        assert(is_dist(adj, root, w, 0));
        assert(reach_within(adj, root, w, 0));
        assert(w == root);
    };
    lemma_bfs_loop_effect(adj, root, st0, q0, qd0);
    let r = bfs_loop(adj, st0, q0);
    let visits = vertex_visits(r.0);
    assert forall|v: usize| #[trigger] visits.contains(v) implies ((v as int) < adj.len()
        && reachable(adj, root, v)) by {
        let j = choose|j: int| 0 <= j < visits.len() && visits[j] == v;
        assert((visits[j] as int) < st0.len());
        assert(r.1[v as int] is Processed);
        assert(!(r.1[v as int] is Undiscovered));
    };
    assert forall|v: usize| (v as int) < adj.len() && reachable(adj, root, v) implies
        #[trigger] visits.contains(v) by {
        let k = choose|k: nat| reach_within(adj, root, v, k);
        assert(st0[root as int] is Discovered);
        assert(r.1[root as int] is Processed || visits.contains(root)) by {
            if !(r.1[root as int] is Undiscovered) && !(r.1[root as int] is Discovered) {
            }
        };
        assert(!(r.1[root as int] is Undiscovered));
        assert(!(r.1[root as int] is Discovered));
        assert(r.1[root as int] is Processed);
        lemma_reach_processed(adj, root, r.1, v, k);
        assert(!(st0[v as int] is Processed));
    };
}

impl<T> Graph<T> {
    /// The breadth-first traversal from `root_index`: the exact event
    /// sequence of `bfs_traversal`.  An invalid root index is refused with
    /// `IndexOutOfRange`.
    pub fn breadth_first_iter_from_index(&self, root_index: usize) -> (r: Result<
        Vec<BFSEvent>,
        GraphError,
    >)
        requires
            self.wf(),
        ensures
            match r {
                Ok(events) => root_index < self.vertex_count() && events@ == bfs_traversal(
                    self.adj_seq(),
                    root_index,
                ),
                Err(e) => root_index >= self.vertex_count() && e == GraphError::IndexOutOfRange,
            },
    {
        let n = self.number_of_vertices();
        if root_index >= n {
            return Err(GraphError::IndexOutOfRange);
        }
        let ghost adj = self.adj_seq();
        let mut state: Vec<BFSTraversalState> = Vec::new();
        let mut i: usize = 0;
        while i < n
            invariant
                0 <= i <= n,
                state@.len() == i,
                forall|j: int| 0 <= j < i ==> state@[j] is Undiscovered,
            decreases n - i,
        {
            state.push(BFSTraversalState::Undiscovered);
            i = i + 1;
        }
        proof {
            assert(state@ =~= initial_bfs_state(self.vertex_count()));
        }
        state[root_index] = BFSTraversalState::Discovered;
        let mut queue: Vec<usize> = Vec::new();
        queue.push(root_index);
        let ghost st0 = state@;
        let ghost target = bfs_loop(adj, st0, seq![root_index]);
        proof {
            assert(queue@.subrange(0, 1) =~= seq![root_index]);
        }
        let mut events: Vec<BFSEvent> = Vec::new();
        let mut head: usize = 0;
        while head < queue.len()
            invariant
                self.wf(),
                adj == self.adj_seq(),
                state@.len() == self.vertex_count(),
                0 <= head <= queue@.len(),
                forall|j: int| 0 <= j < queue@.len() ==> (#[trigger] queue@[j] as int)
                    < state@.len(),
                ({
                    let w = bfs_loop(adj, state@, queue@.subrange(head as int, queue@.len() as int));
                    &&& target.0 == events@ + w.0
                    &&& target.1 == w.1
                }),
            decreases bfs_undiscovered_count(state@), queue@.len() - head,
        {
            let ghost st_pre = state@;
            let ghost q_now = queue@.subrange(head as int, queue@.len() as int);
            let ghost evs_pre = events@;
            let ghost q_full_pre = queue@;
            let u = queue[head];
            proof {
                assert(q_now[0] == u);
            }
            let row = self.adjacency_of(u);
            let row_len = row.len();
            let ghost scan_target = bfs_scan(adj, st_pre, u, 0);
            let mut k: usize = 0;
            let ghost mut done_e: Seq<BFSEvent> = Seq::empty();
            let ghost mut delta: Seq<usize> = Seq::empty();
            while k < row_len
                invariant
                    self.wf(),
                    adj == self.adj_seq(),
                    (u as int) < adj.len(),
                    row@ == adj[u as int],
                    row_len == adj[u as int].len(),
                    0 <= k <= row_len,
                    state@.len() == self.vertex_count(),
                    queue@ == q_full_pre + delta,
                    forall|j: int| 0 <= j < q_full_pre.len() ==> (#[trigger] q_full_pre[j] as int)
                        < state@.len(),
                    forall|j: int| 0 <= j < delta.len() ==> (#[trigger] delta[j] as int)
                        < state@.len(),
                    events@ == evs_pre + done_e,
                    scan_target == bfs_scan(adj, st_pre, u, 0),
                    ({
                        let r = bfs_scan(adj, state@, u, k as int);
                        &&& scan_target.0 == done_e + r.0
                        &&& scan_target.1 == r.1
                        &&& scan_target.2 == delta + r.2
                    }),
                decreases row_len - k,
            {
                let ghost stv = state@;
                proof {
                    assert(crate::graph::row_wf(adj[u as int], adj.len()));
                    assert((adj[u as int][k as int] as int) < state@.len());
                }
                let v = row[k];
                events.push(BFSEvent::Edge(u, v));
                let sv = state[v];
                match sv {
                    BFSTraversalState::Undiscovered => {
                        state[v] = BFSTraversalState::Discovered;
                        queue.push(v);
                        proof {
                            let st2 = stv.update(v as int, BFSTraversalState::Discovered);
                            let r2 = bfs_scan(adj, st2, u, k as int + 1);
                            assert(bfs_scan(adj, stv, u, k as int) == (
                                seq![BFSEvent::Edge(u, v)] + r2.0,
                                r2.1,
                                seq![v] + r2.2,
                            ));
                            assert((done_e + seq![BFSEvent::Edge(u, v)]) + r2.0 =~= done_e + (
                            seq![BFSEvent::Edge(u, v)] + r2.0));
                            assert((delta + seq![v]) + r2.2 =~= delta + (seq![v] + r2.2));
                            done_e = done_e + seq![BFSEvent::Edge(u, v)];
                            delta = delta + seq![v];
                            assert(events@ =~= evs_pre + done_e);
                            assert(queue@ =~= q_full_pre + delta);
                        }
                    },
                    BFSTraversalState::Discovered => {
                        proof {
                            let r2 = bfs_scan(adj, stv, u, k as int + 1);
                            assert(bfs_scan(adj, stv, u, k as int) == (
                                seq![BFSEvent::Edge(u, v)] + r2.0,
                                r2.1,
                                r2.2,
                            ));
                            assert((done_e + seq![BFSEvent::Edge(u, v)]) + r2.0 =~= done_e + (
                            seq![BFSEvent::Edge(u, v)] + r2.0));
                            done_e = done_e + seq![BFSEvent::Edge(u, v)];
                            assert(events@ =~= evs_pre + done_e);
                        }
                    },
                    BFSTraversalState::Processed => {
                        proof {
                            let r2 = bfs_scan(adj, stv, u, k as int + 1);
                            assert(bfs_scan(adj, stv, u, k as int) == (
                                seq![BFSEvent::Edge(u, v)] + r2.0,
                                r2.1,
                                r2.2,
                            ));
                            assert((done_e + seq![BFSEvent::Edge(u, v)]) + r2.0 =~= done_e + (
                            seq![BFSEvent::Edge(u, v)] + r2.0));
                            done_e = done_e + seq![BFSEvent::Edge(u, v)];
                            assert(events@ =~= evs_pre + done_e);
                        }
                    },
                }
                k = k + 1;
            }
            events.push(BFSEvent::Vertex(u));
            let ghost st_scanned = state@;
            state[u] = BFSTraversalState::Processed;
            head = head + 1;
            proof {
                assert(bfs_scan(adj, st_scanned, u, row_len as int).0 =~= Seq::<BFSEvent>::empty());
                assert(bfs_scan(adj, st_scanned, u, row_len as int).2 =~= Seq::<usize>::empty());
                assert(scan_target.0 =~= done_e);
                assert(scan_target.1 == st_scanned);
                assert(scan_target.2 =~= delta);
                let st3 = st_scanned.update(u as int, BFSTraversalState::Processed);
                let q_next = q_now.drop_first() + delta;
                let w2 = bfs_loop(adj, st3, q_next);
                assert(bfs_loop(adj, st_pre, q_now) == (
                    done_e + seq![BFSEvent::Vertex(u)] + w2.0,
                    w2.1,
                ));
                assert(queue@.subrange(head as int, queue@.len() as int) =~= q_next);
                assert(events@ =~= (evs_pre + done_e) + seq![BFSEvent::Vertex(u)]);
                assert((evs_pre + done_e + seq![BFSEvent::Vertex(u)]) + w2.0 =~= evs_pre + (done_e
                    + seq![BFSEvent::Vertex(u)] + w2.0));
                lemma_bfs_scan_count(adj, st_pre, u, 0);
                lemma_bfs_count_update(st_scanned, u as int, BFSTraversalState::Processed);
            }
        }
        proof {
            assert(queue@.subrange(head as int, queue@.len() as int) =~= Seq::<usize>::empty());
            assert(target.0 =~= events@);
        }
        Ok(events)
    }

    /// The breadth-first traversal rooted at a node value: the value is
    /// looked up, then the traversal runs from its index.  A value not in
    /// the graph is refused with `NodeNotFound`.
    pub fn breadth_first_iter_from_node(&self, root_node: T) -> (r: Result<
        Vec<BFSEvent>,
        GraphError,
    >) where T: NodeKey
        requires
            self.wf(),
        ensures
            match r {
                Ok(events) => exists|i: int|
                    0 <= i < self.vertex_count() && self.node_seq()[i] == root_node && events@
                        == bfs_traversal(self.adj_seq(), i as usize),
                Err(e) => e == GraphError::NodeNotFound && !self.node_seq().contains(root_node),
            },
    {
        let root_index = match self.index_from_node(root_node) {
            Ok(i) => i,
            Err(e) => {
                return Err(GraphError::NodeNotFound);
            },
        };
        match self.breadth_first_iter_from_index(root_index) {
            Ok(events) => Ok(events),
            Err(e) => {
                proof {
                    assert(false);
                }
                Err(e)
            },
        }
    }
}

} // verus!
