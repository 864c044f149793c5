//! The graph container itself: an ordered set of unique node values, a
//! per-node successor list with insertion order kept and duplicates
//! suppressed, a cached out-degree per node, and a directedness flag fixed at
//! construction.  Node membership never changes after construction; the only
//! mutation is edge insertion.

use crate::errors::GraphError;
use crate::node_value::NodeKey;
use vstd::prelude::*;
use vstd::set_lib::lemma_int_range;
use vstd::set_lib::lemma_len_subset;
use vstd::set_lib::set_int_range;

verus! {

/// A graph over node values of type `T`, held by dense index `0 .. N`.
pub struct Graph<T> {
    nodes: Vec<T>,
    adjacency: Vec<Vec<usize>>,
    degrees: Vec<usize>,
    directed: bool,
}

/// No two positions of `s` hold equal values.
pub open spec fn distinct_seq<T>(s: Seq<T>) -> bool {
    forall|i: int, j: int| 0 <= i < j < s.len() ==> s[i] != s[j]
}

/// A successor row of a graph with `n` vertices: every entry is a valid
/// index, and no entry repeats.
pub open spec fn row_wf(row: Seq<usize>, n: nat) -> bool {
    &&& forall|k: int| 0 <= k < row.len() ==> (#[trigger] row[k] as nat) < n
    &&& distinct_seq(row)
}

/// Every row of the adjacency state is well formed.
pub open spec fn adjacency_wf(adj: Seq<Seq<usize>>) -> bool {
    forall|i: int| 0 <= i < adj.len() ==> row_wf(#[trigger] adj[i], adj.len())
}

/// The adjacency state of a graph with `n` vertices and no edges.
pub open spec fn empty_adjacency(n: nat) -> Seq<Seq<usize>> {
    Seq::new(n, |i: int| Seq::<usize>::empty())
}

/// A successor row after appending `dest`, unless `dest` is already present:
/// the idempotent, multi-edge-free insertion of the adjacency store.
pub open spec fn insert_unique(row: Seq<usize>, dest: usize) -> Seq<usize> {
    if row.contains(dest) {
        row
    } else {
        row.push(dest)
    }
}

/// The adjacency state after inserting the directed edge `source -> dest`.
pub open spec fn add_edge_spec(adj: Seq<Seq<usize>>, source: int, dest: usize) -> Seq<Seq<usize>> {
    adj.update(source, insert_unique(adj[source], dest))
}

/// The adjacency state after inserting the undirected edge `{a, b}`: the two
/// directions, one after the other, each by the directed insertion.
pub open spec fn add_undirected_spec(adj: Seq<Seq<usize>>, a: usize, b: usize) -> Seq<Seq<usize>> {
    add_edge_spec(add_edge_spec(adj, a as int, b), b as int, a)
}

/// A sequence of distinct `usize` values below `n` cannot hold more than `n`
/// of them.
proof fn lemma_distinct_bounded_len(row: Seq<usize>, n: nat)
    requires
        row_wf(row, n),
    ensures
        row.len() <= n,
{
    broadcast use vstd::seq_lib::seq_to_set_is_finite;

    let ints = row.map_values(|x: usize| x as int);
    assert(ints.no_duplicates());
    ints.unique_seq_to_set();
    assert forall|x: int| ints.to_set().contains(x) implies set_int_range(0, n as int).contains(
        x,
    ) by {
        let i = choose|i: int| 0 <= i < ints.len() && ints[i] == x;
        assert((row[i] as nat) < n);
    };
    lemma_int_range(0, n as int);
    lemma_len_subset(ints.to_set(), set_int_range(0, n as int));
}

impl<T> Graph<T> {
    /// The node values, in index order.
    pub closed spec fn node_seq(&self) -> Seq<T> {
        self.nodes@
    }

    /// The successor rows, in index order.
    pub closed spec fn adj_seq(&self) -> Seq<Seq<usize>> {
        self.adjacency@.map_values(|row: Vec<usize>| row@)
    }

    /// Whether the graph was constructed as a directed one.
    pub closed spec fn spec_directed(&self) -> bool {
        self.directed
    }

    /// The number of vertices.
    pub open spec fn vertex_count(&self) -> nat {
        self.node_seq().len()
    }

    /// The cached degrees agree, entry for entry, with the row lengths.
    pub closed spec fn degrees_ok(&self) -> bool {
        &&& self.degrees@.len() == self.adjacency@.len()
        &&& forall|i: int|
            0 <= i < self.degrees@.len() ==> self.degrees@[i] == self.adjacency@[i]@.len()
    }

    /// The container invariant: one adjacency row and one cached degree per
    /// node, well-formed rows, and pairwise distinct node values.
    pub open spec fn wf(&self) -> bool {
        &&& self.degrees_ok()
        &&& self.adj_seq().len() == self.vertex_count()
        &&& adjacency_wf(self.adj_seq())
        &&& distinct_seq(self.node_seq())
    }

    /// An empty directed graph: no nodes, no edges.
    pub fn new() -> (g: Graph<T>)
        ensures
            g.wf(),
            g.node_seq() == Seq::<T>::empty(),
            g.adj_seq() == empty_adjacency(0),
            g.spec_directed(),
    {
        let g = Graph {
            nodes: Vec::new(),
            adjacency: Vec::new(),
            degrees: Vec::new(),
            directed: true,
        };
        proof {
            assert(g.adj_seq() =~= empty_adjacency(0));
        }
        g
    }

    /// A graph with the given nodes, the given directedness and no edges.
    /// Construction is refused, with `DuplicateNode`, exactly when two node
    /// values compare equal.
    pub fn construct_unconnected(nodes: Vec<T>, directed: bool) -> (r: Result<
        Graph<T>,
        GraphError,
    >) where T: NodeKey
        ensures
            match r {
                Ok(g) => {
                    &&& distinct_seq(nodes@)
                    &&& g.wf()
                    &&& g.node_seq() == nodes@
                    &&& g.adj_seq() == empty_adjacency(nodes@.len())
                    &&& g.spec_directed() == directed
                },
                Err(e) => e == GraphError::DuplicateNode && !distinct_seq(nodes@),
            },
    {
        let n = nodes.len();
        let mut i: usize = 0;
        while i < n
            invariant
                n == nodes@.len(),
                0 <= i <= n,
                forall|p: int, q: int| 0 <= p < q < nodes@.len() && p < i ==> nodes@[p] != nodes@[q],
            decreases n - i,
        {
            let mut j: usize = i + 1;
            while j < n
                invariant
                    n == nodes@.len(),
                    0 <= i < j <= n,
                    forall|q: int| i < q < j ==> nodes@[i as int] != nodes@[q],
                decreases n - j,
            {
                if nodes[i].key_eq(&nodes[j]) {
                    return Err(GraphError::DuplicateNode);
                }
                j = j + 1;
            }
            i = i + 1;
        }
        let mut adjacency: Vec<Vec<usize>> = Vec::new();
        let mut degrees: Vec<usize> = Vec::new();
        let mut k: usize = 0;
        while k < n
            invariant
                0 <= k <= n,
                adjacency@.len() == k,
                degrees@.len() == k,
                forall|p: int| 0 <= p < k ==> adjacency@[p]@ == Seq::<usize>::empty(),
                forall|p: int| 0 <= p < k ==> degrees@[p] == 0,
            decreases n - k,
        {
            adjacency.push(Vec::new());
            degrees.push(0);
            k = k + 1;
        }
        let g = Graph { nodes, adjacency, degrees, directed };
        proof {
            assert(g.adj_seq() =~= empty_adjacency(g.node_seq().len()));
        }
        Ok(g)
    }

    /// The number of vertices.
    pub fn number_of_vertices(&self) -> (n: usize)
        ensures
            n == self.vertex_count(),
    {
        self.nodes.len()
    }

    /// Whether edges are meant to be inserted directed or symmetrically.
    pub fn is_directed(&self) -> (d: bool)
        ensures
            d == self.spec_directed(),
    {
        self.directed
    }

    /// The node value stored at `index`; `IndexOutOfRange` when `index` is
    /// not below the number of vertices.
    pub fn node_from_index(&self, index: usize) -> (r: Result<T, GraphError>) where T: NodeKey
        ensures
            index < self.vertex_count() ==> r == Ok::<T, GraphError>(
                self.node_seq()[index as int],
            ),
            index >= self.vertex_count() ==> r == Err::<T, GraphError>(GraphError::IndexOutOfRange),
    {
        if index < self.nodes.len() {
            Ok(self.nodes[index].key_clone())
        } else {
            Err(GraphError::IndexOutOfRange)
        }
    }

    /// The index at which `node` is stored; `NodeNotFound` when no stored
    /// value compares equal to it.
    pub fn index_from_node(&self, node: T) -> (r: Result<usize, GraphError>) where T: NodeKey
        ensures
            match r {
                Ok(i) => i < self.vertex_count() && self.node_seq()[i as int] == node,
                Err(e) => e == GraphError::NodeNotFound && !self.node_seq().contains(node),
            },
    {
        let n = self.nodes.len();
        let mut i: usize = 0;
        while i < n
            invariant
                n == self.node_seq().len(),
                0 <= i <= n,
                forall|j: int| 0 <= j < i ==> self.node_seq()[j] != node,
            decreases n - i,
        {
            if self.nodes[i].key_eq(&node) {
                return Ok(i);
            }
            i = i + 1;
        }
        Err(GraphError::NodeNotFound)
    }

    /// The cached out-degree of the node at `index`, always equal to the
    /// length of its successor row.
    pub fn get_degree_from_index(&self, index: usize) -> (d: usize)
        requires
            self.wf(),
            index < self.vertex_count(),
        ensures
            d == self.adj_seq()[index as int].len(),
    {
        self.degrees[index]
    }

    /// Read-only access to the node value stored at `index`.
    pub fn node_at(&self, index: usize) -> (node: &T)
        requires
            index < self.vertex_count(),
        ensures
            *node == self.node_seq()[index as int],
    {
        &self.nodes[index]
    }

    /// Read-only access to the successor row of `source`, in insertion order.
    pub fn adjacency_of(&self, source: usize) -> (row: &Vec<usize>)
        requires
            self.wf(),
            source < self.vertex_count(),
        ensures
            row@ == self.adj_seq()[source as int],
    {
        &self.adjacency[source]
    }

    /// Inserts the directed edge `source_index -> dest_index`: appends the
    /// destination to the source's successor row unless already present, in
    /// which case nothing changes.  Both indices must be below the number of
    /// vertices; otherwise nothing changes and `IndexOutOfRange` is returned.
    pub fn add_directed_edge(&mut self, source_index: usize, dest_index: usize) -> (r: Result<
        (),
        GraphError,
    >)
        requires
            old(self).wf(),
        ensures
            final(self).wf(),
            final(self).node_seq() == old(self).node_seq(),
            final(self).spec_directed() == old(self).spec_directed(),
            source_index < old(self).vertex_count() && dest_index < old(self).vertex_count()
                ==> r == Ok::<(), GraphError>(()) && final(self).adj_seq() == add_edge_spec(
                old(self).adj_seq(),
                source_index as int,
                dest_index,
            ),
            !(source_index < old(self).vertex_count() && dest_index < old(self).vertex_count())
                ==> r == Err::<(), GraphError>(GraphError::IndexOutOfRange) && final(self).adj_seq()
                == old(self).adj_seq(),
    {
        let n = self.nodes.len();
        if dest_index >= n {
            return Err(GraphError::IndexOutOfRange);
        }
        if source_index >= n {
            return Err(GraphError::IndexOutOfRange);
        }
        let ghost old_adj = self.adj_seq();
        let ghost old_row = self.adj_seq()[source_index as int];
        let row_len = self.adjacency[source_index].len();
        let mut k: usize = 0;
        let mut found = false;
        while k < row_len
            invariant
                self.wf(),
                *self == *old(self),
                source_index < self.vertex_count(),
                dest_index < self.vertex_count(),
                old_row == self.adj_seq()[source_index as int],
                row_len == old_row.len(),
                0 <= k <= row_len,
                found ==> old_row.contains(dest_index),
                !found ==> forall|j: int| 0 <= j < k ==> old_row[j] != dest_index,
            decreases row_len - k,
        {
            if self.adjacency[source_index][k] == dest_index {
                found = true;
                proof {
                    assert(old_row[k as int] == dest_index);
                }
            }
            k = k + 1;
        }
        if !found {
            proof {
                assert(!old_row.contains(dest_index));
                lemma_distinct_bounded_len(
                    old_row.push(dest_index),
                    self.vertex_count(),
                );
            }
            self.adjacency[source_index].push(dest_index);
            let d = self.degrees[source_index];
            self.degrees[source_index] = d + 1;
            proof {
                assert(self.adj_seq() =~= add_edge_spec(old_adj, source_index as int, dest_index));
                assert forall|i: int| 0 <= i < self.adj_seq().len() implies row_wf(
                    #[trigger] self.adj_seq()[i],
                    self.adj_seq().len(),
                ) by {
                    assert(row_wf(old_adj[i], old_adj.len()));
                };
            }
        } else {
            proof {
                assert(insert_unique(old_row, dest_index) == old_row);
                assert(self.adj_seq() =~= add_edge_spec(old_adj, source_index as int, dest_index));
            }
        }
        Ok(())
    }

    /// Inserts the undirected edge `{source_index, dest_index}`: the two
    /// directed insertions, one after the other, each idempotent on its own.
    /// Both indices must be below the number of vertices; otherwise nothing
    /// changes and `IndexOutOfRange` is returned.
    pub fn add_undirected_edge(&mut self, source_index: usize, dest_index: usize) -> (r: Result<
        (),
        GraphError,
    >)
        requires
            old(self).wf(),
        ensures
            final(self).wf(),
            final(self).node_seq() == old(self).node_seq(),
            final(self).spec_directed() == old(self).spec_directed(),
            source_index < old(self).vertex_count() && dest_index < old(self).vertex_count()
                ==> r == Ok::<(), GraphError>(()) && final(self).adj_seq() == add_undirected_spec(
                old(self).adj_seq(),
                source_index,
                dest_index,
            ),
            !(source_index < old(self).vertex_count() && dest_index < old(self).vertex_count())
                ==> r == Err::<(), GraphError>(GraphError::IndexOutOfRange) && final(self).adj_seq()
                == old(self).adj_seq(),
    {
        let first = self.add_directed_edge(source_index, dest_index);
        if first.is_err() {
            return Err(GraphError::IndexOutOfRange);
        }
        let second = self.add_directed_edge(dest_index, source_index);
        proof {
            assert(second is Ok);
        }
        Ok(())
    }
}

/// Looking an index up through its stored value finds that index again: with
/// pairwise distinct node values, the value at a valid index occurs at no
/// other index.  Together with the lookup contracts this is the two-way
/// round trip between `node_from_index` and `index_from_node`.
pub proof fn lemma_node_index_roundtrip<T>(nodes: Seq<T>, i: int, j: int)
    requires
        distinct_seq(nodes),
        0 <= i < nodes.len(),
        0 <= j < nodes.len(),
        nodes[j] == nodes[i],
    ensures
        i == j,
{
}

/// Inserting the same directed edge twice yields the same successor rows —
/// and so the same degrees — as inserting it once.
pub proof fn lemma_add_directed_edge_idempotent(adj: Seq<Seq<usize>>, source: int, dest: usize)
    requires
        0 <= source < adj.len(),
    ensures
        add_edge_spec(add_edge_spec(adj, source, dest), source, dest) == add_edge_spec(
            adj,
            source,
            dest,
        ),
{
    let once = add_edge_spec(adj, source, dest);
    if adj[source].contains(dest) {
        assert(once[source].contains(dest));
    } else {
        assert(adj[source].push(dest)[adj[source].len() as int] == dest);
        assert(once[source].contains(dest));
    }
    assert(add_edge_spec(once, source, dest) =~= once);
}

/// Inserting the same undirected edge twice yields the same successor rows —
/// and so leaves both endpoints' degrees — as inserting it once.
pub proof fn lemma_add_undirected_edge_idempotent(adj: Seq<Seq<usize>>, a: usize, b: usize)
    requires
        (a as int) < adj.len(),
        (b as int) < adj.len(),
    ensures
        add_undirected_spec(add_undirected_spec(adj, a, b), a, b) == add_undirected_spec(
            adj,
            a,
            b,
        ),
{
    let g1 = add_edge_spec(adj, a as int, b);
    let g2 = add_edge_spec(g1, b as int, a);
    if !adj[a as int].contains(b) {
        assert(adj[a as int].push(b)[adj[a as int].len() as int] == b);
    }
    assert(g1[a as int].contains(b));
    if !g1[b as int].contains(a) {
        assert(g1[b as int].push(a)[g1[b as int].len() as int] == a);
    }
    assert(g2[b as int].contains(a));
    assert(g2[a as int].contains(b));
    assert(add_edge_spec(g2, a as int, b) =~= g2);
    assert(add_edge_spec(add_edge_spec(g2, a as int, b), b as int, a) =~= g2);
}

} // verus!
