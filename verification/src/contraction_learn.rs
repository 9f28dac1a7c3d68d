//! The graph of a tensor network used for planning contractions: tensors are
//! numbered nodes, shared indices are edges with a dimension.
use vstd::prelude::*;

verus! {

/// Neighbors of `t` along the first `k` edges: for each edge touching `t`, the
/// other end (the second end when `t` is the first).
pub open spec fn nbrs(edges: Seq<(usize, usize, usize)>, t: usize) -> Seq<usize>
    decreases edges.len(),
{
    if edges.len() == 0 {
        Seq::empty()
    } else {
        let e = edges.last();
        let rest = nbrs(edges.drop_last(), t);
        if e.0 == t {
            rest.push(e.1)
        } else if e.1 == t {
            rest.push(e.0)
        } else {
            rest
        }
    }
}

/// Number of edges touching `t`.
pub open spec fn touching(edges: Seq<(usize, usize, usize)>, t: usize) -> nat
    decreases edges.len(),
{
    if edges.len() == 0 {
        0
    } else {
        let e = edges.last();
        touching(edges.drop_last(), t) + if e.0 == t || e.1 == t { 1nat } else { 0nat }
    }
}

/// A tensor network: tensors `0..num_tensors_chirho`, and edges
/// `(tensor, tensor, dimension)`.
#[derive(Debug, Clone)]
pub struct TensorNetworkChirho {
    /// Number of tensors.
    pub num_tensors_chirho: usize,
    /// Edges: both tensors and the dimension of the shared index.
    pub edges_chirho: Vec<(usize, usize, usize)>,
}

impl TensorNetworkChirho {
    /// An empty network.
    pub fn new_chirho() -> (r: Self)
        ensures
            r.num_tensors_chirho == 0,
            r.edges_chirho@.len() == 0,
    {
        Self { num_tensors_chirho: 0, edges_chirho: Vec::new() }
    }

    /// Add a tensor; its index is the number of tensors before it.
    pub fn add_tensor_chirho(&mut self) -> (r: usize)
        requires
            old(self).num_tensors_chirho < usize::MAX,
        ensures
            r == old(self).num_tensors_chirho,
            final(self).num_tensors_chirho == old(self).num_tensors_chirho + 1,
            final(self).edges_chirho@ == old(self).edges_chirho@,
    {
        let idx_chirho = self.num_tensors_chirho;
        self.num_tensors_chirho = self.num_tensors_chirho + 1;
        idx_chirho
    }

    /// Add an edge between two tensors.
    pub fn add_edge_chirho(&mut self, t1_chirho: usize, t2_chirho: usize, dim_chirho: usize)
        ensures
            final(self).num_tensors_chirho == old(self).num_tensors_chirho,
            final(self).edges_chirho@ == old(self).edges_chirho@.push((t1_chirho, t2_chirho, dim_chirho)),
    {
        self.edges_chirho.push((t1_chirho, t2_chirho, dim_chirho));
    }

    /// The neighbors of a tensor, one per edge touching it, in edge order.
    pub fn neighbors_chirho(&self, tensor_chirho: usize) -> (r: Vec<usize>)
        ensures
            r@ == nbrs(self.edges_chirho@, tensor_chirho),
    {
        let mut neighbors_chirho: Vec<usize> = Vec::new();
        let mut i: usize = 0;
        while i < self.edges_chirho.len()
            invariant
                i <= self.edges_chirho@.len(),
                neighbors_chirho@ == nbrs(self.edges_chirho@.take(i as int), tensor_chirho),
            decreases self.edges_chirho@.len() - i,
        {
            let (t1_chirho, t2_chirho, _) = self.edges_chirho[i];
            proof {
                assert(self.edges_chirho@.take(i + 1).drop_last() =~= self.edges_chirho@.take(i as int));
            }
            if t1_chirho == tensor_chirho {
                neighbors_chirho.push(t2_chirho);
            } else if t2_chirho == tensor_chirho {
                neighbors_chirho.push(t1_chirho);
            }
            i = i + 1;
        }
        proof {
            assert(self.edges_chirho@.take(i as int) =~= self.edges_chirho@);
        }
        neighbors_chirho
    }

    /// The number of edges touching a tensor.
    pub fn degree_chirho(&self, tensor_chirho: usize) -> (r: usize)
        ensures
            r == touching(self.edges_chirho@, tensor_chirho),
    {
        let mut c: usize = 0;
        let mut i: usize = 0;
        while i < self.edges_chirho.len()
            invariant
                i <= self.edges_chirho@.len(),
                c == touching(self.edges_chirho@.take(i as int), tensor_chirho),
                c <= i,
            decreases self.edges_chirho@.len() - i,
        {
            let (t1, t2, _) = self.edges_chirho[i];
            proof {
                assert(self.edges_chirho@.take(i + 1).drop_last() =~= self.edges_chirho@.take(i as int));
            }
            if t1 == tensor_chirho || t2 == tensor_chirho {
                c = c + 1;
            }
            i = i + 1;
        }
        proof {
            assert(self.edges_chirho@.take(i as int) =~= self.edges_chirho@);
        }
        c
    }
}

/// The degree of a tensor is the number of its neighbors (counted once per edge).
pub proof fn lemma_degree_is_neighbor_count(edges: Seq<(usize, usize, usize)>, t: usize)
    ensures
        touching(edges, t) == nbrs(edges, t).len(),
    decreases edges.len(),
{
    if edges.len() > 0 {
        lemma_degree_is_neighbor_count(edges.drop_last(), t);
    }
}

/// Adding an edge raises the degree of each of its two ends by one (by one in
/// all for a loop on one tensor) and leaves the other tensors' degrees.
pub proof fn lemma_add_edge_degree(edges: Seq<(usize, usize, usize)>, e: (usize, usize, usize), t: usize)
    ensures
        touching(edges.push(e), t) == touching(edges, t) + if e.0 == t || e.1 == t { 1nat } else { 0nat },
{
    assert(edges.push(e).drop_last() =~= edges);
}

} // verus!
