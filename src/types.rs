//! Scratch and result records of the per-vehicle search.
use vstd::prelude::*;

verus! {

/// A sequence of route nodes: node `2k` is the pickup of order `k`, node
/// `2k + 1` its delivery.
pub struct PathBuffer {
    pub nodes: Vec<u8>,
}

impl View for PathBuffer {
    type V = Seq<u8>;

    open spec fn view(&self) -> Seq<u8> {
        self.nodes@
    }
}

impl PathBuffer {
    /// A copy of the nodes of `path`.
    pub fn from_nodes(path: &Vec<u8>) -> (r: PathBuffer)
        ensures
            r@ == path@,
    {
        let mut nodes: Vec<u8> = Vec::new();
        let mut i: usize = 0;
        while i < path.len()
            invariant
                i <= path.len(),
                nodes@ == path@.take(i as int),
            decreases path.len() - i,
        {
            nodes.push(path[i]);
            i = i + 1;
            assert(nodes@ =~= path@.take(i as int));
        }
        assert(path@.take(path.len() as int) =~= path@);
        PathBuffer { nodes }
    }

    pub fn duplicate(&self) -> (r: PathBuffer)
        ensures
            r@ == self@,
    {
        PathBuffer::from_nodes(&self.nodes)
    }
}

impl Default for PathBuffer {
    fn default() -> (r: PathBuffer)
        ensures
            r@ == Seq::<u8>::empty(),
    {
        PathBuffer { nodes: Vec::new() }
    }
}

/// One route of one vehicle with its three costs.
pub struct InternalTspResult {
    pub path: PathBuffer,
    pub total_dist: u64,
    pub total_empty: u64,
    pub total_price: u128,
}

impl InternalTspResult {
    pub fn duplicate(&self) -> (r: InternalTspResult)
        ensures
            r.path@ == self.path@,
            r.total_dist == self.total_dist,
            r.total_empty == self.total_empty,
            r.total_price == self.total_price,
    {
        InternalTspResult {
            path: self.path.duplicate(),
            total_dist: self.total_dist,
            total_empty: self.total_empty,
            total_price: self.total_price,
        }
    }
}

/// The three single-objective winners for one vehicle and one subset of
/// orders; `valid` is false when no route serves the subset.
pub struct InternalBestResults {
    pub min_dist: InternalTspResult,
    pub min_price: InternalTspResult,
    pub min_empty: InternalTspResult,
    pub valid: bool,
}

impl InternalBestResults {
    pub fn duplicate(&self) -> (r: InternalBestResults)
        ensures
            r.same(*self),
    {
        InternalBestResults {
            min_dist: self.min_dist.duplicate(),
            min_price: self.min_price.duplicate(),
            min_empty: self.min_empty.duplicate(),
            valid: self.valid,
        }
    }

    pub open spec fn same(self, o: InternalBestResults) -> bool {
        &&& self.valid == o.valid
        &&& self.min_dist.path@ == o.min_dist.path@
        &&& self.min_dist.total_dist == o.min_dist.total_dist
        &&& self.min_dist.total_empty == o.min_dist.total_empty
        &&& self.min_dist.total_price == o.min_dist.total_price
        &&& self.min_empty.path@ == o.min_empty.path@
        &&& self.min_empty.total_dist == o.min_empty.total_dist
        &&& self.min_empty.total_empty == o.min_empty.total_empty
        &&& self.min_empty.total_price == o.min_empty.total_price
        &&& self.min_price.path@ == o.min_price.path@
        &&& self.min_price.total_dist == o.min_price.total_dist
        &&& self.min_price.total_empty == o.min_price.total_empty
        &&& self.min_price.total_price == o.min_price.total_price
    }
}

} // verus!
