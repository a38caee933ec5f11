//! The hash-cons cache of quadtree nodes.
//!
//! All nodes live in one slab; a bucket map keyed by a mixed hash of the
//! payload finds the canonical entry for any payload, so structurally equal
//! nodes always share one slab index.

use vstd::prelude::*;

use std::collections::HashMap;

use crate::node::evolved_level;
use crate::node::level_size;
use crate::node::memo_ok;
use crate::node::memo_ok_at;
use crate::node::node_cells;
use crate::node::quad_cells;
use crate::node::node_level;
use crate::node::node_pop;
use crate::node::pop64;
use crate::node::popcount_upto;
use crate::node::unique_data;
use crate::node::wf_node_at;
use crate::node::wf_nodes;
use crate::node::lemma_node_prefix;
use crate::node::lemma_pop_fits;
use crate::node::Node;
use crate::node::NodeData;

verus! {

broadcast use vstd::std_specs::hash::group_hash_axioms;

/// A mixed word standing for a payload, used only to pick a bucket;
/// collisions are resolved by comparing payloads.
pub open spec fn spec_hash_data(d: NodeData) -> u64 {
    match d {
        NodeData::Leaf(bits) => bits ^ 0x9e3779b97f4a7c15u64,
        NodeData::Branch { nw, ne, sw, se, level } => ((nw as u64) ^ ((ne as u64) << 13u64) ^ ((
        sw as u64) << 29u64) ^ ((se as u64) << 47u64) ^ ((level as u64) << 56u64)),
    }
}

/// A payload a slab can take next: any leaf, or a branch whose children
/// already sit in the slab, one level below a level in range.
pub open spec fn wf_data(nodes: Seq<Node>, d: NodeData) -> bool {
    match d {
        NodeData::Leaf(_) => true,
        NodeData::Branch { nw, ne, sw, se, level } => {
            &&& nw < nodes.len()
            &&& ne < nodes.len()
            &&& sw < nodes.len()
            &&& se < nodes.len()
            &&& 4 <= level <= 60
            &&& node_level(nodes, nw as int) == level - 1
            &&& node_level(nodes, ne as int) == level - 1
            &&& node_level(nodes, sw as int) == level - 1
            &&& node_level(nodes, se as int) == level - 1
        },
    }
}

/// The hash-cons cache: the node slab, the bucket map from payload hash to
/// the slab indices carrying that hash, and the canonical empty node of
/// each level (entry `k` holds the empty node of level `k + 3`).
pub struct HashlifeCache {
    pub nodes: Vec<Node>,
    pub map: HashMap<u64, Vec<usize>>,
    pub empty_nodes: Vec<usize>,
}

impl HashlifeCache {
    /// The bucket map covers the slab: every entry is in the bucket of its
    /// hash, and buckets hold only slab entries with that hash.
    pub open spec fn maps_ok(&self) -> bool {
        &&& forall|i: int|
            0 <= i < self.nodes@.len() ==> {
                &&& self.map@.contains_key(#[trigger] spec_hash_data(self.nodes@[i].data))
                &&& self.map@[spec_hash_data(self.nodes@[i].data)]@.contains(i as usize)
            }
        &&& forall|h: u64, k: int|
            self.map@.contains_key(h) && 0 <= k < self.map@[h]@.len() ==> {
                &&& (#[trigger] self.map@[h]@[k]) < self.nodes@.len()
                &&& spec_hash_data(self.nodes@[self.map@[h]@[k] as int].data) == h
            }
    }

    /// The canonical empty nodes: one per level from 3 up, each empty.
    pub open spec fn empties_ok(&self) -> bool {
        &&& 1 <= self.empty_nodes@.len()
        &&& forall|k: int|
            0 <= k < self.empty_nodes@.len() ==> {
                &&& (#[trigger] self.empty_nodes@[k]) < self.nodes@.len()
                &&& node_level(self.nodes@, self.empty_nodes@[k] as int) == k + 3
                &&& node_pop(self.nodes@, self.empty_nodes@[k] as int) == 0
            }
    }

    /// Full cache invariant.
    pub open spec fn wf(&self) -> bool {
        &&& wf_nodes(self.nodes@)
        &&& memo_ok(self.nodes@)
        &&& unique_data(self.nodes@)
        &&& self.maps_ok()
        &&& self.empties_ok()
    }

    /// Slab length, for contracts.
    pub open spec fn len(&self) -> int {
        self.nodes@.len() as int
    }

    /// A fresh cache holding only the canonical empty leaf.
    pub fn new() -> (r: Self)
        ensures
            r.wf(),
            r.len() == 1,
            r.nodes@[0].data == NodeData::Leaf(0u64),
            r.empty_nodes@.len() == 1,
    {
        let base = Node {
            data: NodeData::Leaf(0u64),
            population: 0,
            result: None,
            result_step_1: None,
        };
        let mut nodes: Vec<Node> = Vec::new();
        nodes.push(base);
        let mut map: HashMap<u64, Vec<usize>> = HashMap::new();
        let mut bucket: Vec<usize> = Vec::new();
        bucket.push(0);
        let h = hash_data(&NodeData::Leaf(0u64));
        map.insert(h, bucket);
        let mut empty_nodes: Vec<usize> = Vec::new();
        empty_nodes.push(0);
        let r = HashlifeCache { nodes, map, empty_nodes };
        proof {
            assert(pop64(0u64) == 0) by {
                lemma_popcount_zero(64);
            }
            assert(node_pop(r.nodes@, 0) == 0);
            assert(wf_node_at(r.nodes@, 0));
            assert(memo_ok_at(r.nodes@, 0));
            assert(r.map@[h]@ =~= seq![0usize]);
            assert(forall|h2: u64| r.map@.contains_key(h2) ==> h2 == h);
            assert(r.map@.contains_key(spec_hash_data(r.nodes@[0].data)));
            assert(r.map@[h]@[0] == 0usize);
            assert(r.map@[h]@.contains(0usize));
            assert(r.maps_ok());
            assert(r.empties_ok());
        }
        r
    }

    /// Canonicalises a payload: returns the slab index of the node with
    /// this payload, creating it only if it is new.  Two calls with equal
    /// payloads always return the same index.
    pub fn get_node(&mut self, data: NodeData) -> (r: usize)
        requires
            old(self).wf(),
            wf_data(old(self).nodes@, data),
        ensures
            final(self).wf(),
            old(self).len() <= final(self).len(),
            forall|j: int|
                0 <= j < old(self).len() ==> final(self).nodes@[j] == old(self).nodes@[j],
            r < final(self).len(),
            final(self).nodes@[r as int].data == data,
            forall|j: int|
                0 <= j < old(self).len() && old(self).nodes@[j].data == data ==> r == j,
            (exists|j: int| 0 <= j < old(self).len() && old(self).nodes@[j].data == data)
                ==> final(self).len() == old(self).len(),
            !(exists|j: int| 0 <= j < old(self).len() && old(self).nodes@[j].data == data) ==> {
                &&& final(self).len() == old(self).len() + 1
                &&& r as int == old(self).len()
                &&& final(self).nodes@[r as int].result.is_none()
                &&& final(self).nodes@[r as int].result_step_1.is_none()
            },
            final(self).empty_nodes@ == old(self).empty_nodes@,
    {
        let h = hash_data(&data);
        let ghost pre = *self;
        proof {
            assert(pre.nodes@.len() == pre.nodes.len());
        }
        match self.map.get(&h) {
            Some(bucket) => {
                let mut k: usize = 0;
                let blen = bucket.len();
                while k < blen
                    invariant
                        *self == pre,
                        pre.wf(),
                        blen == bucket@.len(),
                        bucket@ == pre.map@[h]@,
                        pre.map@.contains_key(h),
                        0 <= k <= blen,
                        forall|m: int| 0 <= m < k ==> pre.nodes@[bucket@[m] as int].data != data,
                    decreases blen - k,
                {
                    let j = bucket[k];
                    proof {
                        assert(pre.map@[h]@[k as int] < pre.nodes@.len());
                    }
                    if node_data_eq(&self.nodes[j], &data) {
                        proof {
                            assert forall|j2: int|
                                0 <= j2 < pre.len() && pre.nodes@[j2].data == data implies j as int
                                == j2 by {
                                assert(pre.nodes@[j as int].data == data);
                            }
                        }
                        return j;
                    }
                    k = k + 1;
                }
                proof {
                    assert forall|j: int|
                        0 <= j < pre.len() implies #[trigger] pre.nodes@[j].data != data by {
                        if pre.nodes@[j].data == data {
                            assert(spec_hash_data(pre.nodes@[j].data) == h);
                            assert(pre.map@[h]@.contains(j as usize));
                            let m = choose|m: int|
                                0 <= m < pre.map@[h]@.len() && pre.map@[h]@[m] == j as usize;
                            assert(pre.nodes@[pre.map@[h]@[m] as int].data != data);
                        }
                    }
                }
            },
            None => {
                proof {
                    assert forall|j: int|
                        0 <= j < pre.len() implies #[trigger] pre.nodes@[j].data != data by {
                        if pre.nodes@[j].data == data {
                            assert(pre.map@.contains_key(spec_hash_data(pre.nodes@[j].data)));
                        }
                    }
                }
            },
        }
        proof {
            assert(forall|j: int| 0 <= j < pre.len() ==> #[trigger] pre.nodes@[j].data != data);
        }
        let population: u128 = match &data {
            NodeData::Leaf(bits) => pop_bits(*bits) as u128,
            NodeData::Branch { nw, ne, sw, se, .. } => {
                proof {
                    lemma_pop_fits(self.nodes@, *nw as int);
                    lemma_pop_fits(self.nodes@, *ne as int);
                    lemma_pop_fits(self.nodes@, *sw as int);
                    lemma_pop_fits(self.nodes@, *se as int);
                    lemma_four_pops_fit();
                    assert(wf_node_at(self.nodes@, *nw as int));
                    assert(wf_node_at(self.nodes@, *ne as int));
                    assert(wf_node_at(self.nodes@, *sw as int));
                    assert(wf_node_at(self.nodes@, *se as int));
                }
                let a = self.nodes[*nw].population;
                let b = self.nodes[*ne].population;
                let c = self.nodes[*sw].population;
                let d = self.nodes[*se].population;
                a + b + c + d
            },
        };
        let idx = self.nodes.len();
        let node = Node { data, population, result: None, result_step_1: None };
        self.nodes.push(node);
        let mut bucket: Vec<usize> = match self.map.remove(&h) {
            Some(b) => b,
            None => Vec::new(),
        };
        bucket.push(idx);
        self.map.insert(h, bucket);
        proof {
            let a = pre.nodes@;
            let b = self.nodes@;
            assert(b =~= a.push(node));
            assert forall|j: int| 0 <= j < a.len() implies wf_node_at(b, j) && memo_ok_at(b, j)
                && (forall|x: int, y: int|
                crate::node::node_cells(a, j, x, y) == crate::node::node_cells(b, j, x, y))
                && node_pop(a, j) == node_pop(b, j) by {
                assert(wf_node_at(a, j));
                assert(memo_ok_at(a, j));
                lemma_node_prefix(a, b, j);
            }
            assert(wf_node_at(b, a.len() as int)) by {
                match data {
                    NodeData::Leaf(_) => {},
                    NodeData::Branch { nw, ne, sw, se, level } => {
                        lemma_node_prefix(a, b, nw as int);
                        lemma_node_prefix(a, b, ne as int);
                        lemma_node_prefix(a, b, sw as int);
                        lemma_node_prefix(a, b, se as int);
                        assert(wf_node_at(a, nw as int));
                        assert(wf_node_at(a, ne as int));
                        assert(wf_node_at(a, sw as int));
                        assert(wf_node_at(a, se as int));
                    },
                }
            }
            assert(memo_ok_at(b, a.len() as int));
            assert(wf_nodes(b));
            assert(memo_ok(b));
            assert(unique_data(b));
            assert forall|i: int|
                0 <= i < b.len() implies self.map@.contains_key(
                #[trigger] spec_hash_data(b[i].data),
            ) && self.map@[spec_hash_data(b[i].data)]@.contains(i as usize) by {
                if i < a.len() {
                    let hi = spec_hash_data(a[i].data);
                    assert(pre.map@.contains_key(hi));
                    assert(pre.map@[hi]@.contains(i as usize));
                    if hi == h {
                        let m = choose|m: int|
                            0 <= m < pre.map@[hi]@.len() && pre.map@[hi]@[m] == i as usize;
                        assert(self.map@[h]@[m] == i as usize);
                        assert(self.map@[h]@.contains(i as usize));
                    } else {
                        assert(self.map@[hi]@ == pre.map@[hi]@);
                    }
                } else {
                    assert(b[i].data == data);
                    assert(self.map@[h]@.last() == idx);
                    assert(self.map@[h]@.contains(idx));
                }
            }
            assert forall|h2: u64, k: int|
                self.map@.contains_key(h2) && 0 <= k < self.map@[h2]@.len() implies (
            #[trigger] self.map@[h2]@[k]) < b.len() && spec_hash_data(
                b[self.map@[h2]@[k] as int].data,
            ) == h2 by {
                if h2 == h {
                    if k < self.map@[h]@.len() - 1 {
                        if pre.map@.contains_key(h) {
                            assert(self.map@[h]@[k] == pre.map@[h]@[k]);
                        }
                    } else {
                        assert(self.map@[h]@[k] == idx);
                    }
                } else {
                    assert(pre.map@.contains_key(h2) && pre.map@[h2]@ == self.map@[h2]@);
                }
            }
            assert(self.maps_ok());
            assert forall|kk: int| 0 <= kk < self.empty_nodes@.len() implies (
            #[trigger] self.empty_nodes@[kk]) < b.len() && node_level(
                b,
                self.empty_nodes@[kk] as int,
            ) == kk + 3 && node_pop(b, self.empty_nodes@[kk] as int) == 0 by {
                lemma_node_prefix(a, b, self.empty_nodes@[kk] as int);
            }
        }
        idx
    }
}

impl HashlifeCache {
    /// Combines four nodes of one level into the branch one level higher
    /// whose quadrants they become.
    pub fn join(&mut self, nw: usize, ne: usize, sw: usize, se: usize) -> (r: usize)
        requires
            old(self).wf(),
            nw < old(self).len(),
            ne < old(self).len(),
            sw < old(self).len(),
            se < old(self).len(),
            node_level(old(self).nodes@, nw as int) == node_level(old(self).nodes@, ne as int),
            node_level(old(self).nodes@, nw as int) == node_level(old(self).nodes@, sw as int),
            node_level(old(self).nodes@, nw as int) == node_level(old(self).nodes@, se as int),
            3 <= node_level(old(self).nodes@, nw as int) <= 59,
        ensures
            final(self).wf(),
            old(self).len() <= final(self).len(),
            forall|j: int| 0 <= j < old(self).len() ==> final(self).nodes@[j] == old(self).nodes@[j],
            final(self).empty_nodes@ == old(self).empty_nodes@,
            r < final(self).len(),
            final(self).nodes@[r as int].data == (NodeData::Branch {
                nw,
                ne,
                sw,
                se,
                level: (node_level(old(self).nodes@, nw as int) + 1) as u8,
            }),
            node_level(final(self).nodes@, r as int) == node_level(old(self).nodes@, nw as int) + 1,
            node_pop(final(self).nodes@, r as int) == node_pop(old(self).nodes@, nw as int)
                + node_pop(old(self).nodes@, ne as int) + node_pop(old(self).nodes@, sw as int)
                + node_pop(old(self).nodes@, se as int),
            forall|x: int, y: int|
                node_cells(final(self).nodes@, r as int, x, y) == crate::node::quad_cells(
                    old(self).nodes@,
                    nw as int,
                    ne as int,
                    sw as int,
                    se as int,
                    crate::node::level_size(node_level(old(self).nodes@, nw as int)),
                    x,
                    y,
                ),
    {
        let ghost pre = *self;
        let level = self.nodes[nw].level() + 1;
        let data = NodeData::Branch { nw, ne, sw, se, level };
        let r = self.get_node(data);
        proof {
            let a = pre.nodes@;
            let b = self.nodes@;
            assert(wf_node_at(b, r as int));
            let half = crate::node::level_size(node_level(a, nw as int));
            assert forall|x: int, y: int|
                node_cells(b, r as int, x, y) == crate::node::quad_cells(
                    a,
                    nw as int,
                    ne as int,
                    sw as int,
                    se as int,
                    half,
                    x,
                    y,
                ) by {
                lemma_node_prefix(a, b, nw as int);
                lemma_node_prefix(a, b, ne as int);
                lemma_node_prefix(a, b, sw as int);
                lemma_node_prefix(a, b, se as int);
                assert(node_cells(b, nw as int, x, y) == node_cells(a, nw as int, x, y));
                assert(node_cells(b, sw as int, x, y - half) == node_cells(a, sw as int, x, y - half));
                assert(node_cells(b, ne as int, x - half, y) == node_cells(a, ne as int, x - half, y));
                assert(node_cells(b, se as int, x - half, y - half) == node_cells(
                    a,
                    se as int,
                    x - half,
                    y - half,
                ));
            }
            lemma_node_prefix(pre.nodes@, self.nodes@, nw as int);
            lemma_node_prefix(pre.nodes@, self.nodes@, ne as int);
            lemma_node_prefix(pre.nodes@, self.nodes@, sw as int);
            lemma_node_prefix(pre.nodes@, self.nodes@, se as int);
        }
        r
    }

    /// The canonical all-dead node of the given level (level 3, the empty
    /// leaf, for any level below 4), built once and reused.
    pub fn empty_node(&mut self, level: u8) -> (r: usize)
        requires
            old(self).wf(),
            level <= 60,
        ensures
            final(self).wf(),
            old(self).len() <= final(self).len(),
            forall|j: int| 0 <= j < old(self).len() ==> final(self).nodes@[j] == old(self).nodes@[j],
            old(self).empty_nodes@.is_prefix_of(final(self).empty_nodes@),
            final(self).empty_nodes@.len() >= if level <= 3 {
                1int
            } else {
                level - 2
            },
            r < final(self).len(),
            node_level(final(self).nodes@, r as int) == if level <= 3 {
                3int
            } else {
                level as int
            },
            node_pop(final(self).nodes@, r as int) == 0,
            final(self).empty_nodes@[if level <= 3 {
                0int
            } else {
                level - 3
            }] == r,
        decreases level,
    {
        if level <= 3 {
            let r = self.empty_nodes[0];
            return r;
        }
        let index = (level - 3) as usize;
        if index < self.empty_nodes.len() {
            let r = self.empty_nodes[index];
            return r;
        }
        let child = self.empty_node(level - 1);
        let index2 = (level - 3) as usize;
        if index2 < self.empty_nodes.len() {
            let r = self.empty_nodes[index2];
            return r;
        }
        let ghost pre = *self;
        let node = self.join(child, child, child, child);
        self.empty_nodes.push(node);
        proof {
            assert(self.empty_nodes@ =~= pre.empty_nodes@.push(node));
            assert(pre.empty_nodes@.len() == index2 as int);
            assert forall|k: int|
                0 <= k < self.empty_nodes@.len() implies (#[trigger] self.empty_nodes@[k])
                < self.nodes@.len() && node_level(self.nodes@, self.empty_nodes@[k] as int) == k + 3
                && node_pop(self.nodes@, self.empty_nodes@[k] as int) == 0 by {
                if k < pre.empty_nodes@.len() {
                    assert(self.empty_nodes@[k] == pre.empty_nodes@[k]);
                } else {
                    assert(self.empty_nodes@[k] == node);
                }
            }
        }
        node
    }
}

impl HashlifeCache {
    /// Sets one memo slot of node `i` to `r`.
    fn set_result(&mut self, i: usize, r: usize, one_generation: bool)
        requires
            old(self).wf(),
            i < old(self).len(),
            r < old(self).len(),
            node_level(old(self).nodes@, r as int) == evolved_level(
                node_level(old(self).nodes@, i as int),
            ),
        ensures
            final(self).wf(),
            final(self).len() == old(self).len(),
            forall|j: int|
                0 <= j < old(self).len() ==> final(self).nodes@[j].data == old(self).nodes@[j].data
                    && final(self).nodes@[j].population == old(self).nodes@[j].population,
            final(self).empty_nodes@ == old(self).empty_nodes@,
            one_generation ==> final(self).nodes@[i as int].result_step_1 == Some(r)
                && final(self).nodes@[i as int].result == old(self).nodes@[i as int].result,
            !one_generation ==> final(self).nodes@[i as int].result == Some(r)
                && final(self).nodes@[i as int].result_step_1 == old(self).nodes@[i as int].result_step_1,
    {
        let ghost pre = *self;
        let mut nd = self.nodes[i];
        if one_generation {
            nd.result_step_1 = Some(r);
        } else {
            nd.result = Some(r);
        }
        self.nodes[i] = nd;
        proof {
            let a = pre.nodes@;
            let b = self.nodes@;
            assert(b =~= a.update(i as int, nd));
            assert forall|j: int|
                0 <= j < b.len() implies b[j].data == a[j].data && b[j].population
                == a[j].population by {}
            assert forall|j: int| 0 <= j < b.len() implies #[trigger] wf_node_at(b, j) by {
                assert(wf_node_at(a, j));
                lemma_node_prefix(a, b, j);
            }
            assert forall|j: int| 0 <= j < b.len() implies #[trigger] memo_ok_at(b, j) by {
                assert(memo_ok_at(a, j));
            }
            assert forall|jj: int|
                0 <= jj < b.len() implies self.map@.contains_key(
                #[trigger] spec_hash_data(b[jj].data),
            ) && self.map@[spec_hash_data(b[jj].data)]@.contains(jj as usize) by {
                assert(spec_hash_data(b[jj].data) == spec_hash_data(a[jj].data));
            }
            assert forall|h: u64, k: int|
                self.map@.contains_key(h) && 0 <= k < self.map@[h]@.len() implies (
            #[trigger] self.map@[h]@[k]) < b.len() && spec_hash_data(
                b[self.map@[h]@[k] as int].data,
            ) == h by {
                assert(spec_hash_data(b[pre.map@[h]@[k] as int].data) == spec_hash_data(
                    a[pre.map@[h]@[k] as int].data,
                ));
            }
            assert forall|k: int|
                0 <= k < self.empty_nodes@.len() implies (#[trigger] self.empty_nodes@[k])
                < b.len() && node_level(b, self.empty_nodes@[k] as int) == k + 3 && node_pop(
                b,
                self.empty_nodes@[k] as int,
            ) == 0 by {
                lemma_node_prefix(a, b, self.empty_nodes@[k] as int);
            }
        }
    }

    /// One generation of an 8x8 leaf under a dead boundary, by a SWAR
    /// neighbour count over the packed word.
    fn calc_leaf(&mut self, input: u64) -> (r: usize)
        requires
            old(self).wf(),
        ensures
            final(self).wf(),
            old(self).len() <= final(self).len(),
            forall|j: int| 0 <= j < old(self).len() ==> final(self).nodes@[j] == old(self).nodes@[j],
            final(self).empty_nodes@ == old(self).empty_nodes@,
            r < final(self).len(),
            final(self).nodes@[r as int].data == NodeData::Leaf(spec_leaf_step(input)),
            node_level(final(self).nodes@, r as int) == 3,
            forall|a: int, c: int|
                0 <= a < 8 && 0 <= c < 8 ==> (#[trigger] leaf_cell(spec_leaf_step(input), a, c)
                    == crate::life::life_rule(
                    leaf_cell(input, a, c),
                    leaf_count(input, a, c),
                )),
    {
        proof {
            lemma_leaf_step_is_one_generation(input);
        }
        let l: u64 = (input >> 1u64) & 0x7F7F7F7F7F7F7F7Fu64;
        let rr: u64 = (input << 1u64) & 0xFEFEFEFEFEFEFEFEu64;
        let u: u64 = input << 8u64;
        let d: u64 = input >> 8u64;
        let ul: u64 = (u >> 1u64) & 0x7F7F7F7F7F7F7F7Fu64;
        let ur: u64 = (u << 1u64) & 0xFEFEFEFEFEFEFEFEu64;
        let dl: u64 = (d >> 1u64) & 0x7F7F7F7F7F7F7F7Fu64;
        let dr: u64 = (d << 1u64) & 0xFEFEFEFEFEFEFEFEu64;
        let s0a: u64 = l;
        let c0b: u64 = s0a & rr;
        let s0b: u64 = s0a ^ rr;
        let s1b: u64 = c0b;
        let c0c: u64 = s0b & u;
        let s0c: u64 = s0b ^ u;
        let c1c: u64 = s1b & c0c;
        let s1c: u64 = s1b ^ c0c;
        let s2c: u64 = c1c;
        let c0d: u64 = s0c & d;
        let s0d: u64 = s0c ^ d;
        let c1d: u64 = s1c & c0d;
        let s1d: u64 = s1c ^ c0d;
        let s2d: u64 = s2c | c1d;
        let c0e: u64 = s0d & ul;
        let s0e: u64 = s0d ^ ul;
        let c1e: u64 = s1d & c0e;
        let s1e: u64 = s1d ^ c0e;
        let s2e: u64 = s2d | c1e;
        let c0f: u64 = s0e & ur;
        let s0f: u64 = s0e ^ ur;
        let c1f: u64 = s1e & c0f;
        let s1f: u64 = s1e ^ c0f;
        let s2f: u64 = s2e | c1f;
        let c0g: u64 = s0f & dl;
        let s0g: u64 = s0f ^ dl;
        let c1g: u64 = s1f & c0g;
        let s1g: u64 = s1f ^ c0g;
        let s2g: u64 = s2f | c1g;
        let c0h: u64 = s0g & dr;
        let s0h: u64 = s0g ^ dr;
        let c1h: u64 = s1g & c0h;
        let s1h: u64 = s1g ^ c0h;
        let s2h: u64 = s2g | c1h;
        let out: u64 = (s1h & !s2h) & (s0h | input);
        proof {
            assert(out == spec_leaf_step(input));
        }
        self.get_node(NodeData::Leaf(out))
    }

    /// Interleaves one 4-row half of two side-by-side leaves into four
    /// packed 16-cell rows.
    fn zip_quadrants(&self, left: u64, right: u64, shift: u64) -> (r: u64)
        requires
            shift == 0 || shift == 32,
        ensures
            r == spec_zip(left, right, shift),
    {
        let l_part: u64 = left >> shift;
        let r_part: u64 = right >> shift;
        let l0: u64 = l_part & 0xFFu64;
        let l1: u64 = (l_part >> 8u64) & 0xFFu64;
        let l2: u64 = (l_part >> 16u64) & 0xFFu64;
        let l3: u64 = (l_part >> 24u64) & 0xFFu64;
        let r0: u64 = r_part & 0xFFu64;
        let r1: u64 = (r_part >> 8u64) & 0xFFu64;
        let r2: u64 = (r_part >> 16u64) & 0xFFu64;
        let r3: u64 = (r_part >> 24u64) & 0xFFu64;
        let row0: u64 = l0 | (r0 << 8u64);
        let row1: u64 = l1 | (r1 << 8u64);
        let row2: u64 = l2 | (r2 << 8u64);
        let row3: u64 = l3 | (r3 << 8u64);
        row0 | (row1 << 16u64) | (row2 << 32u64) | (row3 << 48u64)
    }

    /// One generation of four 16-cell rows packed in one word, with the
    /// vertical context entering from the neighbouring words: each output
    /// bit obeys the B3/S23 rule over the strip.
    fn step_4_rows(&self, curr: u64, up_block: u64, down_block: u64) -> (r: u64)
        ensures
            r == spec_step4(curr, up_block, down_block),
            forall|x: int, rr: int|
                0 <= x < 16 && 0 <= rr < 4 ==> (#[trigger] crate::life::bit64(r, rr * 16 + x)
                    == crate::life::life_rule(
                    strip_cell(curr, up_block, down_block, x, rr),
                    strip_count(curr, up_block, down_block, x, rr),
                )),
    {
        let u: u64 = (curr << 16u64) | (up_block >> 48u64);
        let d: u64 = (curr >> 16u64) | (down_block << 48u64);
        let l: u64 = (curr >> 1u64) & 0x7FFF7FFF7FFF7FFFu64;
        let rr: u64 = (curr << 1u64) & 0xFFFEFFFEFFFEFFFEu64;
        let ul: u64 = (u >> 1u64) & 0x7FFF7FFF7FFF7FFFu64;
        let ur: u64 = (u << 1u64) & 0xFFFEFFFEFFFEFFFEu64;
        let dl: u64 = (d >> 1u64) & 0x7FFF7FFF7FFF7FFFu64;
        let dr: u64 = (d << 1u64) & 0xFFFEFFFEFFFEFFFEu64;
        let s0a: u64 = l;
        let c0b: u64 = s0a & rr;
        let s0b: u64 = s0a ^ rr;
        let s1b: u64 = c0b;
        let c0c: u64 = s0b & u;
        let s0c: u64 = s0b ^ u;
        let c1c: u64 = s1b & c0c;
        let s1c: u64 = s1b ^ c0c;
        let s2c: u64 = c1c;
        let c0d: u64 = s0c & d;
        let s0d: u64 = s0c ^ d;
        let c1d: u64 = s1c & c0d;
        let s1d: u64 = s1c ^ c0d;
        let s2d: u64 = s2c | c1d;
        let c0e: u64 = s0d & ul;
        let s0e: u64 = s0d ^ ul;
        let c1e: u64 = s1d & c0e;
        let s1e: u64 = s1d ^ c0e;
        let s2e: u64 = s2d | c1e;
        let c0f: u64 = s0e & ur;
        let s0f: u64 = s0e ^ ur;
        let c1f: u64 = s1e & c0f;
        let s1f: u64 = s1e ^ c0f;
        let s2f: u64 = s2e | c1f;
        let c0g: u64 = s0f & dl;
        let s0g: u64 = s0f ^ dl;
        let c1g: u64 = s1f & c0g;
        let s1g: u64 = s1f ^ c0g;
        let s2g: u64 = s2f | c1g;
        let c0h: u64 = s0g & dr;
        let s0h: u64 = s0g ^ dr;
        let c1h: u64 = s1g & c0h;
        let s1h: u64 = s1g ^ c0h;
        let s2h: u64 = s2g | c1h;
        let out: u64 = (s1h & !s2h) & (s0h | curr);
        proof {
            assert(out == spec_step4(curr, up_block, down_block));
            lemma_step4_is_one_generation(curr, up_block, down_block);
            assert forall|x: int, rr: int|
                0 <= x < 16 && 0 <= rr < 4 implies (#[trigger] crate::life::bit64(
                out,
                rr * 16 + x,
            ) == crate::life::life_rule(
                strip_cell(curr, up_block, down_block, x, rr),
                strip_count(curr, up_block, down_block, x, rr),
            )) by {
                assert(crate::life::bit64(spec_step4(curr, up_block, down_block), rr * 16 + x)
                    == crate::life::life_rule(
                    strip_cell(curr, up_block, down_block, x, rr),
                    strip_count(curr, up_block, down_block, x, rr),
                ));
            }
        }
        out
    }

    /// Extracts the middle eight cells of each 16-cell row of a packed
    /// word into a 32-bit half-leaf.
    fn compress_center(&self, block: u64) -> (r: u64)
        ensures
            r == spec_compress(block),
    {
        let r0: u64 = (block >> 4u64) & 0xFFu64;
        let r1: u64 = (block >> 20u64) & 0xFFu64;
        let r2: u64 = (block >> 36u64) & 0xFFu64;
        let r3: u64 = (block >> 52u64) & 0xFFu64;
        r0 | (r1 << 8u64) | (r2 << 16u64) | (r3 << 24u64)
    }

    /// Runs the packed 16x16 simulator over the four leaves of a level-4
    /// node for `steps` generations and returns the centre 8x8 leaf: the
    /// result is exactly the centre window of the board advanced `steps`
    /// generations under the rule with a dead boundary.
    fn calc_level_4_grid(
        &mut self,
        nw_bits: u64,
        ne_bits: u64,
        sw_bits: u64,
        se_bits: u64,
        steps: usize,
    ) -> (r: usize)
        requires
            old(self).wf(),
        ensures
            final(self).wf(),
            old(self).len() <= final(self).len(),
            forall|j: int| 0 <= j < old(self).len() ==> final(self).nodes@[j] == old(self).nodes@[j],
            final(self).empty_nodes@ == old(self).empty_nodes@,
            r < final(self).len(),
            node_level(final(self).nodes@, r as int) == 3,
            forall|x: int, y: int|
                0 <= x < 8 && 0 <= y < 8 ==> (#[trigger] node_cells(
                    final(self).nodes@,
                    r as int,
                    x,
                    y,
                ) == sim16(
                    steps as nat,
                    board16_set(nw_bits, ne_bits, sw_bits, se_bits),
                ).contains((x + 4, y + 4))),
    {
        let mut b0: u64 = self.zip_quadrants(nw_bits, ne_bits, 0);
        let mut b1: u64 = self.zip_quadrants(nw_bits, ne_bits, 32);
        let mut b2: u64 = self.zip_quadrants(sw_bits, se_bits, 0);
        let mut b3: u64 = self.zip_quadrants(sw_bits, se_bits, 32);
        let ghost board = board16_set(nw_bits, ne_bits, sw_bits, se_bits);
        proof {
            assert forall|p: (int, int)|
                board.contains(p) == packed_cell(b0, b1, b2, b3, p.0, p.1) by {
                if 0 <= p.0 < 16 && 0 <= p.1 < 16 {
                    if p.1 < 4 {
                        lemma_zip_bits(nw_bits, ne_bits, 0, p.0 as u64, p.1 as u64);
                    } else if p.1 < 8 {
                        lemma_zip_bits(nw_bits, ne_bits, 32, p.0 as u64, (p.1 - 4) as u64);
                    } else if p.1 < 12 {
                        lemma_zip_bits(sw_bits, se_bits, 0, p.0 as u64, (p.1 - 8) as u64);
                    } else {
                        lemma_zip_bits(sw_bits, se_bits, 32, p.0 as u64, (p.1 - 12) as u64);
                    }
                }
            }
        }
        let mut st: usize = 0;
        while st < steps
            invariant
                0 <= st <= steps,
                forall|p: (int, int)|
                    sim16(st as nat, board).contains(p) == packed_cell(b0, b1, b2, b3, p.0, p.1),
            decreases steps - st,
        {
            let n0: u64 = self.step_4_rows(b0, 0, b1);
            let n1: u64 = self.step_4_rows(b1, b0, b2);
            let n2: u64 = self.step_4_rows(b2, b1, b3);
            let n3: u64 = self.step_4_rows(b3, b2, 0);
            proof {
                lemma_packed_matches_sim(b0, b1, b2, b3, n0, n1, n2, n3, sim16(st as nat, board));
                lemma_sim16_snoc(board, st as nat);
            }
            b0 = n0;
            b1 = n1;
            b2 = n2;
            b3 = n3;
            st = st + 1;
        }
        let center_top: u64 = self.compress_center(b1);
        let center_bot: u64 = self.compress_center(b2);
        let result: u64 = center_top | (center_bot << 32u64);
        let r = self.get_node(NodeData::Leaf(result));
        proof {
            assert forall|x: int, y: int|
                0 <= x < 8 && 0 <= y < 8 implies (#[trigger] node_cells(
                self.nodes@,
                r as int,
                x,
                y,
            ) == sim16(steps as nat, board).contains((x + 4, y + 4))) by {
                lemma_window_bits(b1, b2, x as u64, y as u64);
                assert(crate::life::bit64(result, y * 8 + x) == packed_cell(
                    b0,
                    b1,
                    b2,
                    b3,
                    x + 4,
                    y + 4,
                ));
            }
        }
        r
    }

    /// The centre 8x8 of the 16x16 square formed by four leaves.    /// The centre 8x8 of the 16x16 square formed by four leaves.
    fn centered_bits(&mut self, nw: u64, ne: u64, sw: u64, se: u64) -> (r: usize)
        requires
            old(self).wf(),
        ensures
            final(self).wf(),
            old(self).len() <= final(self).len(),
            forall|j: int| 0 <= j < old(self).len() ==> final(self).nodes@[j] == old(self).nodes@[j],
            final(self).empty_nodes@ == old(self).empty_nodes@,
            r < final(self).len(),
            node_level(final(self).nodes@, r as int) == 3,
            forall|x: int, y: int|
                0 <= x < 8 && 0 <= y < 8 ==> (#[trigger] node_cells(
                    final(self).nodes@,
                    r as int,
                    x,
                    y,
                ) == centered_leaf_window(nw, ne, sw, se, x, y)),
    {
        let v_left: u64 = (nw >> 32u64) | (sw << 32u64);
        let v_right: u64 = (ne >> 32u64) | (se << 32u64);
        let res: u64 = ((v_left >> 4u64) & 0x0F0F0F0F0F0F0F0Fu64) | ((v_right << 4u64)
            & 0xF0F0F0F0F0F0F0F0u64);
        let r = self.get_node(NodeData::Leaf(res));
        proof {
            assert forall|x: int, y: int|
                0 <= x < 8 && 0 <= y < 8 implies (#[trigger] node_cells(
                self.nodes@,
                r as int,
                x,
                y,
            ) == centered_leaf_window(nw, ne, sw, se, x, y)) by {
                lemma_center_bits(nw, ne, sw, se, x as u64, y as u64);
            }
        }
        r
    }

    /// The node geometrically centred inside the 2x2 square of four nodes    /// The node geometrically centred inside the 2x2 square of four nodes
    /// of one level; same level as the inputs.
    fn centered_sub(&mut self, nw: usize, ne: usize, sw: usize, se: usize) -> (r: usize)
        requires
            old(self).wf(),
            nw < old(self).len(),
            ne < old(self).len(),
            sw < old(self).len(),
            se < old(self).len(),
            node_level(old(self).nodes@, nw as int) == node_level(old(self).nodes@, ne as int),
            node_level(old(self).nodes@, nw as int) == node_level(old(self).nodes@, sw as int),
            node_level(old(self).nodes@, nw as int) == node_level(old(self).nodes@, se as int),
            node_level(old(self).nodes@, nw as int) <= 59,
        ensures
            final(self).wf(),
            old(self).len() <= final(self).len(),
            forall|j: int| 0 <= j < old(self).len() ==> final(self).nodes@[j] == old(self).nodes@[j],
            final(self).empty_nodes@ == old(self).empty_nodes@,
            r < final(self).len(),
            node_level(final(self).nodes@, r as int) == node_level(old(self).nodes@, nw as int),
            forall|x: int, y: int|
                0 <= x < level_size(node_level(old(self).nodes@, nw as int)) && 0 <= y
                    < level_size(node_level(old(self).nodes@, nw as int)) ==> (
                #[trigger] node_cells(final(self).nodes@, r as int, x, y) == centered_window(
                    old(self).nodes@,
                    nw as int,
                    ne as int,
                    sw as int,
                    se as int,
                    level_size(node_level(old(self).nodes@, nw as int) - 1),
                    x,
                    y,
                )),
    {
        proof {
            assert(wf_node_at(self.nodes@, nw as int));
            assert(wf_node_at(self.nodes@, ne as int));
            assert(wf_node_at(self.nodes@, sw as int));
            assert(wf_node_at(self.nodes@, se as int));
            vstd::arithmetic::power2::lemma2_to64();
        }
        let ghost pre = *self;
        let dnw = self.nodes[nw].data;
        let dne = self.nodes[ne].data;
        let dsw = self.nodes[sw].data;
        let dse = self.nodes[se].data;
        match (dnw, dne, dsw, dse) {
            (NodeData::Leaf(a), NodeData::Leaf(b), NodeData::Leaf(c), NodeData::Leaf(d)) => {
                let r = self.centered_bits(a, b, c, d);
                proof {
                    assert forall|x: int, y: int|
                        0 <= x < 8 && 0 <= y < 8 implies (#[trigger] node_cells(
                        self.nodes@,
                        r as int,
                        x,
                        y,
                    ) == centered_window(pre.nodes@, nw as int, ne as int, sw as int, se as int, 4, x, y)) by {
                        assert(node_cells(self.nodes@, r as int, x, y) == centered_leaf_window(
                            a,
                            b,
                            c,
                            d,
                            x,
                            y,
                        ));
                    }
                }
                r
            },
            (
                NodeData::Branch { se: nw_se, .. },
                NodeData::Branch { sw: ne_sw, .. },
                NodeData::Branch { ne: sw_ne, .. },
                NodeData::Branch { nw: se_nw, .. },
            ) => {
                let r = self.join(nw_se, ne_sw, sw_ne, se_nw);
                proof {
                    let lv = node_level(pre.nodes@, nw as int);
                    let h = level_size(lv - 1);
                    vstd::arithmetic::power2::lemma_pow2_unfold(lv as nat);
                    vstd::arithmetic::power2::lemma_pow2_pos((lv - 1) as nat);
                    assert forall|x: int, y: int|
                        0 <= x < 2 * h && 0 <= y < 2 * h implies (#[trigger] node_cells(
                        self.nodes@,
                        r as int,
                        x,
                        y,
                    ) == centered_window(
                        pre.nodes@,
                        nw as int,
                        ne as int,
                        sw as int,
                        se as int,
                        h,
                        x,
                        y,
                    )) by {
                        assert(node_cells(self.nodes@, r as int, x, y) == quad_cells(
                            pre.nodes@,
                            nw_se as int,
                            ne_sw as int,
                            sw_ne as int,
                            se_nw as int,
                            h,
                            x,
                            y,
                        ));
                        let hh = level_size(lv - 2);
                        vstd::arithmetic::power2::lemma_pow2_unfold((lv - 1) as nat);
                        assert(h == 2 * hh);
                    }
                }
                r
            },
            _ => {
                proof {
                    assert(false);
                }
                0
            },
        }
    }

    /// The horizontally centred node across the seam of a west and an east    /// The horizontally centred node across the seam of a west and an east
    /// node of one level; same level as the inputs.
    fn centered_horizontal(&mut self, left: usize, right: usize) -> (r: usize)
        requires
            old(self).wf(),
            left < old(self).len(),
            right < old(self).len(),
            node_level(old(self).nodes@, left as int) == node_level(old(self).nodes@, right as int),
            node_level(old(self).nodes@, left as int) <= 59,
        ensures
            final(self).wf(),
            old(self).len() <= final(self).len(),
            forall|j: int| 0 <= j < old(self).len() ==> final(self).nodes@[j] == old(self).nodes@[j],
            final(self).empty_nodes@ == old(self).empty_nodes@,
            r < final(self).len(),
            node_level(final(self).nodes@, r as int) == node_level(old(self).nodes@, left as int),
            forall|x: int, y: int|
                0 <= x < level_size(node_level(old(self).nodes@, left as int) - 1) ==> (
                #[trigger] node_cells(final(self).nodes@, r as int, x, y) == node_cells(
                    old(self).nodes@,
                    left as int,
                    x + level_size(node_level(old(self).nodes@, left as int) - 1),
                    y,
                )),
            forall|x: int, y: int|
                level_size(node_level(old(self).nodes@, left as int) - 1) <= x < level_size(
                    node_level(old(self).nodes@, left as int),
                ) ==> (#[trigger] node_cells(final(self).nodes@, r as int, x, y) == node_cells(
                    old(self).nodes@,
                    right as int,
                    x - level_size(node_level(old(self).nodes@, left as int) - 1),
                    y,
                )),
    {
        proof {
            assert(wf_node_at(self.nodes@, left as int));
            assert(wf_node_at(self.nodes@, right as int));
            vstd::arithmetic::power2::lemma2_to64();
        }
        let ghost pre = *self;
        let dl = self.nodes[left].data;
        let dr = self.nodes[right].data;
        match (dl, dr) {
            (NodeData::Leaf(a), NodeData::Leaf(b)) => {
                let res: u64 = ((a >> 4u64) & 0x0F0F0F0F0F0F0F0Fu64) | ((b << 4u64)
                    & 0xF0F0F0F0F0F0F0F0u64);
                let r = self.get_node(NodeData::Leaf(res));
                proof {
                    assert forall|x: int, y: int|
                        0 <= x < 4 implies (#[trigger] node_cells(self.nodes@, r as int, x, y)
                        == node_cells(pre.nodes@, left as int, x + 4, y)) by {
                        if 0 <= y < 8 {
                            lemma_horizontal_bits(a, b, x as u64, y as u64);
                        }
                    }
                    assert forall|x: int, y: int|
                        4 <= x < 8 implies (#[trigger] node_cells(self.nodes@, r as int, x, y)
                        == node_cells(pre.nodes@, right as int, x - 4, y)) by {
                        if 0 <= y < 8 {
                            lemma_horizontal_bits(a, b, x as u64, y as u64);
                        }
                    }
                }
                r
            },
            (
                NodeData::Branch { ne: l_ne, se: l_se, .. },
                NodeData::Branch { nw: r_nw, sw: r_sw, .. },
            ) => {
                let r = self.join(l_ne, r_nw, l_se, r_sw);
                proof {
                    let lv = node_level(pre.nodes@, left as int);
                    let h = level_size(lv - 1);
                    vstd::arithmetic::power2::lemma_pow2_unfold(lv as nat);
                    vstd::arithmetic::power2::lemma_pow2_pos((lv - 1) as nat);
                    assert forall|x: int, y: int|
                        0 <= x < h implies (#[trigger] node_cells(self.nodes@, r as int, x, y)
                        == node_cells(pre.nodes@, left as int, x + h, y)) by {
                        assert(node_cells(self.nodes@, r as int, x, y) == quad_cells(
                            pre.nodes@,
                            l_ne as int,
                            r_nw as int,
                            l_se as int,
                            r_sw as int,
                            h,
                            x,
                            y,
                        ));
                    }
                    assert forall|x: int, y: int|
                        h <= x < 2 * h implies (#[trigger] node_cells(self.nodes@, r as int, x, y)
                        == node_cells(pre.nodes@, right as int, x - h, y)) by {
                        assert(node_cells(self.nodes@, r as int, x, y) == quad_cells(
                            pre.nodes@,
                            l_ne as int,
                            r_nw as int,
                            l_se as int,
                            r_sw as int,
                            h,
                            x,
                            y,
                        ));
                    }
                }
                r
            },
            _ => {
                proof {
                    assert(false);
                }
                0
            },
        }
    }

    /// The vertically centred node across the seam of a north and a south    /// The vertically centred node across the seam of a north and a south
    /// node of one level; same level as the inputs.
    fn centered_vertical(&mut self, top: usize, bottom: usize) -> (r: usize)
        requires
            old(self).wf(),
            top < old(self).len(),
            bottom < old(self).len(),
            node_level(old(self).nodes@, top as int) == node_level(old(self).nodes@, bottom as int),
            node_level(old(self).nodes@, top as int) <= 59,
        ensures
            final(self).wf(),
            old(self).len() <= final(self).len(),
            forall|j: int| 0 <= j < old(self).len() ==> final(self).nodes@[j] == old(self).nodes@[j],
            final(self).empty_nodes@ == old(self).empty_nodes@,
            r < final(self).len(),
            node_level(final(self).nodes@, r as int) == node_level(old(self).nodes@, top as int),
            forall|x: int, y: int|
                0 <= y < level_size(node_level(old(self).nodes@, top as int) - 1) ==> (
                #[trigger] node_cells(final(self).nodes@, r as int, x, y) == node_cells(
                    old(self).nodes@,
                    top as int,
                    x,
                    y + level_size(node_level(old(self).nodes@, top as int) - 1),
                )),
            forall|x: int, y: int|
                level_size(node_level(old(self).nodes@, top as int) - 1) <= y < level_size(
                    node_level(old(self).nodes@, top as int),
                ) ==> (#[trigger] node_cells(final(self).nodes@, r as int, x, y) == node_cells(
                    old(self).nodes@,
                    bottom as int,
                    x,
                    y - level_size(node_level(old(self).nodes@, top as int) - 1),
                )),
    {
        proof {
            assert(wf_node_at(self.nodes@, top as int));
            assert(wf_node_at(self.nodes@, bottom as int));
            vstd::arithmetic::power2::lemma2_to64();
        }
        let ghost pre = *self;
        let dt = self.nodes[top].data;
        let db = self.nodes[bottom].data;
        match (dt, db) {
            (NodeData::Leaf(a), NodeData::Leaf(b)) => {
                let res: u64 = (a >> 32u64) | (b << 32u64);
                let r = self.get_node(NodeData::Leaf(res));
                proof {
                    let h = level_size(2);
                    assert(h == 4);
                    assert forall|x: int, y: int|
                        0 <= y < 4 implies (#[trigger] node_cells(self.nodes@, r as int, x, y)
                        == node_cells(pre.nodes@, top as int, x, y + 4)) by {
                        if 0 <= x < 8 {
                            lemma_vertical_bits(a, b, x as u64, y as u64);
                        }
                    }
                    assert forall|x: int, y: int|
                        4 <= y < 8 implies (#[trigger] node_cells(self.nodes@, r as int, x, y)
                        == node_cells(pre.nodes@, bottom as int, x, y - 4)) by {
                        if 0 <= x < 8 {
                            lemma_vertical_bits(a, b, x as u64, y as u64);
                        }
                    }
                }
                r
            },
            (
                NodeData::Branch { sw: t_sw, se: t_se, .. },
                NodeData::Branch { nw: b_nw, ne: b_ne, .. },
            ) => {
                let r = self.join(t_sw, t_se, b_nw, b_ne);
                proof {
                    let lv = node_level(pre.nodes@, top as int);
                    let h = level_size(lv - 1);
                    vstd::arithmetic::power2::lemma_pow2_unfold(lv as nat);
                    vstd::arithmetic::power2::lemma_pow2_pos((lv - 1) as nat);
                    assert forall|x: int, y: int|
                        0 <= y < h implies (#[trigger] node_cells(self.nodes@, r as int, x, y)
                        == node_cells(pre.nodes@, top as int, x, y + h)) by {
                        assert(node_cells(self.nodes@, r as int, x, y) == quad_cells(
                            pre.nodes@,
                            t_sw as int,
                            t_se as int,
                            b_nw as int,
                            b_ne as int,
                            h,
                            x,
                            y,
                        ));
                    }
                    assert forall|x: int, y: int|
                        h <= y < 2 * h implies (#[trigger] node_cells(self.nodes@, r as int, x, y)
                        == node_cells(pre.nodes@, bottom as int, x, y - h)) by {
                        assert(node_cells(self.nodes@, r as int, x, y) == quad_cells(
                            pre.nodes@,
                            t_sw as int,
                            t_se as int,
                            b_nw as int,
                            b_ne as int,
                            h,
                            x,
                            y,
                        ));
                    }
                }
                r
            },
            _ => {
                proof {
                    assert(false);
                }
                0
            },
        }
    }
}

impl HashlifeCache {
    /// Advances node `i` by `2^(L-2)` generations (one generation for a
    /// leaf) and returns the centred result, one level down.  Memoised
    /// write-once: a stored result is returned as is, and after the call
    /// the slot holds the returned node, so repeated calls on one node
    /// yield one shared result.
    pub fn evolve(&mut self, i: usize) -> (r: usize)
        requires
            old(self).wf(),
            i < old(self).len(),
        ensures
            final(self).wf(),
            old(self).len() <= final(self).len(),
            forall|j: int|
                0 <= j < old(self).len() ==> final(self).nodes@[j].data == old(self).nodes@[j].data
                    && final(self).nodes@[j].population == old(self).nodes@[j].population,
            old(self).empty_nodes@.is_prefix_of(final(self).empty_nodes@),
            r < final(self).len(),
            node_level(final(self).nodes@, r as int) == evolved_level(
                node_level(old(self).nodes@, i as int),
            ),
            old(self).nodes@[i as int].result.is_some() ==> r == old(self).nodes@[i as int].result->Some_0 && *final(self) == *old(self),
            final(self).nodes@[i as int].result == Some(r),
        decreases node_level(old(self).nodes@, i as int), 1int,
    {
        let nd = self.nodes[i];
        if let Some(j) = nd.result {
            proof {
                assert(memo_ok_at(self.nodes@, i as int));
            }
            return j;
        }
        let r = match nd.data {
            NodeData::Leaf(bits) => self.calc_leaf(bits),
            NodeData::Branch { nw, ne, sw, se, level } => {
                proof {
                    assert(wf_node_at(self.nodes@, i as int));
                }
                self.calc_branch(nw, ne, sw, se, level)
            },
        };
        self.set_result(i, r, false);
        r
    }

    /// Advances node `i` by exactly one generation and returns the centred
    /// result, one level down.  Memoised write-once in the slot separate
    /// from the warp jump's, so single-generation results never mix with
    /// warp results.
    #[verifier::rlimit(100)]
    pub fn evolve_1(&mut self, i: usize) -> (r: usize)
        requires
            old(self).wf(),
            i < old(self).len(),
        ensures
            final(self).wf(),
            old(self).len() <= final(self).len(),
            forall|j: int|
                0 <= j < old(self).len() ==> final(self).nodes@[j].data == old(self).nodes@[j].data
                    && final(self).nodes@[j].population == old(self).nodes@[j].population,
            old(self).empty_nodes@.is_prefix_of(final(self).empty_nodes@),
            r < final(self).len(),
            node_level(final(self).nodes@, r as int) == evolved_level(
                node_level(old(self).nodes@, i as int),
            ),
            old(self).nodes@[i as int].result_step_1.is_some() ==> r == old(self).nodes@[i as int].result_step_1->Some_0 && *final(self) == *old(self),
            final(self).nodes@[i as int].result_step_1 == Some(r),
        decreases node_level(old(self).nodes@, i as int),
    {
        let nd = self.nodes[i];
        if let Some(j) = nd.result_step_1 {
            proof {
                assert(memo_ok_at(self.nodes@, i as int));
            }
            return j;
        }
        let r = match nd.data {
            NodeData::Leaf(bits) => self.calc_leaf(bits),
            NodeData::Branch { nw, ne, sw, se, level } => {
                proof {
                    assert(wf_node_at(self.nodes@, i as int));
                }
                if level == 4 {
                    let a = self.leaf_bits(nw);
                    let b = self.leaf_bits(ne);
                    let c = self.leaf_bits(sw);
                    let d = self.leaf_bits(se);
                    self.calc_level_4_grid(a, b, c, d, 1)
                } else {
                    let n01 = self.centered_horizontal(nw, ne);
                    let n10 = self.centered_vertical(nw, sw);
                    let n11 = self.centered_sub(nw, ne, sw, se);
                    let n12 = self.centered_vertical(ne, se);
                    let n21 = self.centered_horizontal(sw, se);
                    let r00 = self.evolve_1(nw);
                    let r01 = self.evolve_1(n01);
                    let r02 = self.evolve_1(ne);
                    let r10 = self.evolve_1(n10);
                    let r11 = self.evolve_1(n11);
                    let r12 = self.evolve_1(n12);
                    let r20 = self.evolve_1(sw);
                    let r21 = self.evolve_1(n21);
                    let r22 = self.evolve_1(se);
                    let c_nw = self.centered_sub(r00, r01, r10, r11);
                    let c_ne = self.centered_sub(r01, r02, r11, r12);
                    let c_sw = self.centered_sub(r10, r11, r20, r21);
                    let c_se = self.centered_sub(r11, r12, r21, r22);
                    self.join(c_nw, c_ne, c_sw, c_se)
                }
            },
        };
        self.set_result(i, r, true);
        r
    }

    /// The packed bitmap of a leaf node.
    fn leaf_bits(&self, i: usize) -> (r: u64)
        requires
            self.wf(),
            i < self.len(),
            node_level(self.nodes@, i as int) == 3,
        ensures
            self.nodes@[i as int].data == NodeData::Leaf(r),
    {
        proof {
            assert(wf_node_at(self.nodes@, i as int));
        }
        match self.nodes[i].data {
            NodeData::Leaf(bits) => bits,
            NodeData::Branch { .. } => {
                proof {
                    assert(false);
                }
                0
            },
        }
    }

    /// The 9-way centred decomposition for a branch of level five or more,
    /// and the packed 16x16 simulator for level four.
    #[verifier::rlimit(100)]
    fn calc_branch(&mut self, nw: usize, ne: usize, sw: usize, se: usize, level: u8) -> (r: usize)
        requires
            old(self).wf(),
            nw < old(self).len(),
            ne < old(self).len(),
            sw < old(self).len(),
            se < old(self).len(),
            4 <= level <= 60,
            node_level(old(self).nodes@, nw as int) == level - 1,
            node_level(old(self).nodes@, ne as int) == level - 1,
            node_level(old(self).nodes@, sw as int) == level - 1,
            node_level(old(self).nodes@, se as int) == level - 1,
        ensures
            final(self).wf(),
            old(self).len() <= final(self).len(),
            forall|j: int|
                0 <= j < old(self).len() ==> final(self).nodes@[j].data == old(self).nodes@[j].data
                    && final(self).nodes@[j].population == old(self).nodes@[j].population,
            old(self).empty_nodes@.is_prefix_of(final(self).empty_nodes@),
            r < final(self).len(),
            node_level(final(self).nodes@, r as int) == level - 1,
        decreases level as int, 0int,
    {
        if level == 4 {
            let a = self.leaf_bits(nw);
            let b = self.leaf_bits(ne);
            let c = self.leaf_bits(sw);
            let d = self.leaf_bits(se);
            return self.calc_level_4_grid(a, b, c, d, 4);
        }
        let n01 = self.centered_horizontal(nw, ne);
        let n10 = self.centered_vertical(nw, sw);
        let n11 = self.centered_sub(nw, ne, sw, se);
        let n12 = self.centered_vertical(ne, se);
        let n21 = self.centered_horizontal(sw, se);
        let r00 = self.evolve(nw);
        let r01 = self.evolve(n01);
        let r02 = self.evolve(ne);
        let r10 = self.evolve(n10);
        let r11 = self.evolve(n11);
        let r12 = self.evolve(n12);
        let r20 = self.evolve(sw);
        let r21 = self.evolve(n21);
        let r22 = self.evolve(se);
        let q_nw = self.join(r00, r01, r10, r11);
        let q_ne = self.join(r01, r02, r11, r12);
        let q_sw = self.join(r10, r11, r20, r21);
        let q_se = self.join(r11, r12, r21, r22);
        let f_nw = self.evolve(q_nw);
        let f_ne = self.evolve(q_ne);
        let f_sw = self.evolve(q_sw);
        let f_se = self.evolve(q_se);
        self.join(f_nw, f_ne, f_sw, f_se)
    }
}

/// Mirror of the leaf step computation, for stating what `calc_leaf`
/// returns.
pub open spec fn spec_leaf_step(input: u64) -> u64 {
    let l = (input >> 1u64) & 0x7F7F7F7F7F7F7F7Fu64;
    let rr = (input << 1u64) & 0xFEFEFEFEFEFEFEFEu64;
    let u = input << 8u64;
    let d = input >> 8u64;
    let ul = (u >> 1u64) & 0x7F7F7F7F7F7F7F7Fu64;
    let ur = (u << 1u64) & 0xFEFEFEFEFEFEFEFEu64;
    let dl = (d >> 1u64) & 0x7F7F7F7F7F7F7F7Fu64;
    let dr = (d << 1u64) & 0xFEFEFEFEFEFEFEFEu64;
    let s0a = l;
    let c0b = s0a & rr;
    let s0b = s0a ^ rr;
    let s1b = c0b;
    let c0c = s0b & u;
    let s0c = s0b ^ u;
    let c1c = s1b & c0c;
    let s1c = s1b ^ c0c;
    let s2c = c1c;
    let c0d = s0c & d;
    let s0d = s0c ^ d;
    let c1d = s1c & c0d;
    let s1d = s1c ^ c0d;
    let s2d = s2c | c1d;
    let c0e = s0d & ul;
    let s0e = s0d ^ ul;
    let c1e = s1d & c0e;
    let s1e = s1d ^ c0e;
    let s2e = s2d | c1e;
    let c0f = s0e & ur;
    let s0f = s0e ^ ur;
    let c1f = s1e & c0f;
    let s1f = s1e ^ c0f;
    let s2f = s2e | c1f;
    let c0g = s0f & dl;
    let s0g = s0f ^ dl;
    let c1g = s1f & c0g;
    let s1g = s1f ^ c0g;
    let s2g = s2f | c1g;
    let c0h = s0g & dr;
    let s0h = s0g ^ dr;
    let c1h = s1g & c0h;
    let s1h = s1g ^ c0h;
    let s2h = s2g | c1h;
    (s1h & !s2h) & (s0h | input)
}

/// Mirror of the quadrant zip, for stating what `zip_quadrants` returns.
pub open spec fn spec_zip(left: u64, right: u64, shift: u64) -> u64 {
    let l_part = left >> shift;
    let r_part = right >> shift;
    let row0 = (l_part & 0xFFu64) | ((r_part & 0xFFu64) << 8u64);
    let row1 = ((l_part >> 8u64) & 0xFFu64) | (((r_part >> 8u64) & 0xFFu64) << 8u64);
    let row2 = ((l_part >> 16u64) & 0xFFu64) | (((r_part >> 16u64) & 0xFFu64) << 8u64);
    let row3 = ((l_part >> 24u64) & 0xFFu64) | (((r_part >> 24u64) & 0xFFu64) << 8u64);
    row0 | (row1 << 16u64) | (row2 << 32u64) | (row3 << 48u64)
}

/// Mirror of the packed four-row step, for stating what `step_4_rows`
/// returns.
pub open spec fn spec_step4(curr: u64, up_block: u64, down_block: u64) -> u64 {
    let u = (curr << 16u64) | (up_block >> 48u64);
    let d = (curr >> 16u64) | (down_block << 48u64);
    let l = (curr >> 1u64) & 0x7FFF7FFF7FFF7FFFu64;
    let rr = (curr << 1u64) & 0xFFFEFFFEFFFEFFFEu64;
    let ul = (u >> 1u64) & 0x7FFF7FFF7FFF7FFFu64;
    let ur = (u << 1u64) & 0xFFFEFFFEFFFEFFFEu64;
    let dl = (d >> 1u64) & 0x7FFF7FFF7FFF7FFFu64;
    let dr = (d << 1u64) & 0xFFFEFFFEFFFEFFFEu64;
    let s0a = l;
    let c0b = s0a & rr;
    let s0b = s0a ^ rr;
    let s1b = c0b;
    let c0c = s0b & u;
    let s0c = s0b ^ u;
    let c1c = s1b & c0c;
    let s1c = s1b ^ c0c;
    let s2c = c1c;
    let c0d = s0c & d;
    let s0d = s0c ^ d;
    let c1d = s1c & c0d;
    let s1d = s1c ^ c0d;
    let s2d = s2c | c1d;
    let c0e = s0d & ul;
    let s0e = s0d ^ ul;
    let c1e = s1d & c0e;
    let s1e = s1d ^ c0e;
    let s2e = s2d | c1e;
    let c0f = s0e & ur;
    let s0f = s0e ^ ur;
    let c1f = s1e & c0f;
    let s1f = s1e ^ c0f;
    let s2f = s2e | c1f;
    let c0g = s0f & dl;
    let s0g = s0f ^ dl;
    let c1g = s1f & c0g;
    let s1g = s1f ^ c0g;
    let s2g = s2f | c1g;
    let c0h = s0g & dr;
    let s0h = s0g ^ dr;
    let c1h = s1g & c0h;
    let s1h = s1g ^ c0h;
    let s2h = s2g | c1h;
    (s1h & !s2h) & (s0h | curr)
}

/// Mirror of the centre extraction, for stating what `compress_center`
/// returns.
pub open spec fn spec_compress(block: u64) -> u64 {
    ((block >> 4u64) & 0xFFu64) | (((block >> 20u64) & 0xFFu64) << 8u64) | (((block >> 36u64)
        & 0xFFu64) << 16u64) | (((block >> 52u64) & 0xFFu64) << 24u64)
}

/// The centred window over four same-level nodes laid out 2x2: the cell
/// at `(x, y)` of the centre square of their composition.
pub open spec fn centered_window(
    nodes: Seq<Node>,
    nw: int,
    ne: int,
    sw: int,
    se: int,
    h: int,
    x: int,
    y: int,
) -> bool {
    if x < h {
        if y < h {
            node_cells(nodes, nw, x + h, y + h)
        } else {
            node_cells(nodes, sw, x + h, y - h)
        }
    } else {
        if y < h {
            node_cells(nodes, ne, x - h, y + h)
        } else {
            node_cells(nodes, se, x - h, y - h)
        }
    }
}

/// The centred window over four leaf bitmaps laid out 2x2.
pub open spec fn centered_leaf_window(
    nw: u64,
    ne: u64,
    sw: u64,
    se: u64,
    x: int,
    y: int,
) -> bool {
    if x < 4 {
        if y < 4 {
            leaf_cell(nw, x + 4, y + 4)
        } else {
            leaf_cell(sw, x + 4, y - 4)
        }
    } else {
        if y < 4 {
            leaf_cell(ne, x - 4, y + 4)
        } else {
            leaf_cell(se, x - 4, y - 4)
        }
    }
}

/// Bit selection of the vertical centring: the low half of the result
/// word comes from the top leaf's high rows, the high half from the
/// bottom leaf's low rows.
proof fn lemma_vertical_bits(a: u64, b: u64, x: u64, y: u64)
    by (bit_vector)
    requires
        x < 8,
        y < 8,
    ensures
        ((((a >> 32u64) | (b << 32u64)) >> (y * 8 + x)) & 1u64 == 1u64) == (if y < 4 {
            (a >> ((y + 4) * 8 + x)) & 1u64 == 1u64
        } else {
            (b >> (((y - 4) * 8 + x) as u64)) & 1u64 == 1u64
        }),
{
}

/// Bit selection of the horizontal centring: the low columns of the
/// result come from the left leaf's high columns, the high columns from
/// the right leaf's low columns.
proof fn lemma_horizontal_bits(a: u64, b: u64, x: u64, y: u64)
    by (bit_vector)
    requires
        x < 8,
        y < 8,
    ensures
        (((((a >> 4u64) & 0x0F0F0F0F0F0F0F0Fu64) | ((b << 4u64) & 0xF0F0F0F0F0F0F0F0u64)) >> (y * 8
            + x)) & 1u64 == 1u64) == (if x < 4 {
            (a >> (y * 8 + (x + 4))) & 1u64 == 1u64
        } else {
            (b >> ((y * 8 + (x - 4)) as u64)) & 1u64 == 1u64
        }),
{
}

/// Bit selection of the centred square of four leaves.
proof fn lemma_center_bits(nw: u64, ne: u64, sw: u64, se: u64, x: u64, y: u64)
    by (bit_vector)
    requires
        x < 8,
        y < 8,
    ensures
        ({
            let v_left = (nw >> 32u64) | (sw << 32u64);
            let v_right = (ne >> 32u64) | (se << 32u64);
            let res = ((v_left >> 4u64) & 0x0F0F0F0F0F0F0F0Fu64) | ((v_right << 4u64)
                & 0xF0F0F0F0F0F0F0F0u64);
            ((res >> (y * 8 + x)) & 1u64 == 1u64) == (if x < 4 && y < 4 {
                (nw >> ((y + 4) * 8 + (x + 4))) & 1u64 == 1u64
            } else if y < 4 {
                (ne >> (((y + 4) * 8 + (x - 4)) as u64)) & 1u64 == 1u64
            } else if x < 4 {
                (sw >> (((y - 4) * 8 + (x + 4)) as u64)) & 1u64 == 1u64
            } else {
                (se >> (((y - 4) * 8 + (x - 4)) as u64)) & 1u64 == 1u64
            })
        }),
{
}

/// A cell of the four-row strip a packed step works on: rows 0 to 3 live
/// in `curr`, row -1 is the last row of the word above, row 4 the first
/// row of the word below, and columns outside the 16-wide board are dead.
pub open spec fn strip_cell(curr: u64, up: u64, dn: u64, x: int, r: int) -> bool {
    if 0 <= x < 16 {
        if r == -1 {
            crate::life::bit64(up, 48 + x)
        } else if 0 <= r < 4 {
            crate::life::bit64(curr, r * 16 + x)
        } else if r == 4 {
            crate::life::bit64(dn, x)
        } else {
            false
        }
    } else {
        false
    }
}

/// Live neighbours of a strip cell.
pub open spec fn strip_count(curr: u64, up: u64, dn: u64, x: int, r: int) -> int {
    crate::life::b2i(strip_cell(curr, up, dn, x - 1, r - 1)) + crate::life::b2i(
        strip_cell(curr, up, dn, x, r - 1),
    ) + crate::life::b2i(strip_cell(curr, up, dn, x + 1, r - 1)) + crate::life::b2i(
        strip_cell(curr, up, dn, x - 1, r),
    ) + crate::life::b2i(strip_cell(curr, up, dn, x + 1, r)) + crate::life::b2i(
        strip_cell(curr, up, dn, x - 1, r + 1),
    ) + crate::life::b2i(strip_cell(curr, up, dn, x, r + 1)) + crate::life::b2i(
        strip_cell(curr, up, dn, x + 1, r + 1),
    )
}

/// A guarded strip bit, in machine form for the solver: row `rr` runs
/// over 0..=5 standing for strip rows -1..=4.
pub open spec fn strip_bit_u(curr: u64, up: u64, dn: u64, x: u64, rr: u64) -> u64 {
    if x < 16 {
        if rr == 0 {
            (up >> ((48 + x) as u64)) & 1u64
        } else if rr <= 4 {
            (curr >> (((rr - 1) * 16 + x) as u64)) & 1u64
        } else if rr == 5 {
            (dn >> x) & 1u64
        } else {
            0u64
        }
    } else {
        0u64
    }
}

/// Each bit the packed four-row step produces obeys the B3/S23 rule over
/// the strip with its vertical context.
proof fn lemma_step4_bit(curr: u64, up: u64, dn: u64, x: u64, r: u64)
    by (bit_vector)
    requires
        x < 16,
        r < 4,
    ensures
        ((spec_step4(curr, up, dn) >> (r * 16 + x)) & 1u64 == 1u64) == ({
            let cnt = (if x > 0 {
                strip_bit_u(curr, up, dn, (x - 1) as u64, r)
            } else {
                0u64
            }) + strip_bit_u(curr, up, dn, x, r) + strip_bit_u(curr, up, dn, (x + 1) as u64, r) + (
            if x > 0 {
                strip_bit_u(curr, up, dn, (x - 1) as u64, (r + 1) as u64)
            } else {
                0u64
            }) + strip_bit_u(curr, up, dn, (x + 1) as u64, (r + 1) as u64) + (if x > 0 {
                strip_bit_u(curr, up, dn, (x - 1) as u64, (r + 2) as u64)
            } else {
                0u64
            }) + strip_bit_u(curr, up, dn, x, (r + 2) as u64) + strip_bit_u(
                curr,
                up,
                dn,
                (x + 1) as u64,
                (r + 2) as u64,
            );
            cnt == 3 || (cnt == 2 && (curr >> (r * 16 + x)) & 1u64 == 1u64)
        }),
{
}

/// The packed four-row step is exactly one generation of the rule on its
/// strip, the context rows read from the neighbouring words and the
/// board boundary dead.
pub proof fn lemma_step4_is_one_generation(curr: u64, up: u64, dn: u64)
    ensures
        forall|x: int, r: int|
            0 <= x < 16 && 0 <= r < 4 ==> (#[trigger] crate::life::bit64(
                spec_step4(curr, up, dn),
                r * 16 + x,
            ) == crate::life::life_rule(
                strip_cell(curr, up, dn, x, r),
                strip_count(curr, up, dn, x, r),
            )),
{
    assert forall|x: int, r: int|
        0 <= x < 16 && 0 <= r < 4 implies (#[trigger] crate::life::bit64(
        spec_step4(curr, up, dn),
        r * 16 + x,
    ) == crate::life::life_rule(
        strip_cell(curr, up, dn, x, r),
        strip_count(curr, up, dn, x, r),
    )) by {
        let xu = x as u64;
        let ru = r as u64;
        lemma_step4_bit(curr, up, dn, xu, ru);
        lemma_strip_bit_le(curr, up, dn);
        assert((if xu > 0 {
            strip_bit_u(curr, up, dn, (xu - 1) as u64, ru)
        } else {
            0u64
        }) == crate::life::b2i(strip_cell(curr, up, dn, x - 1, r - 1)));
        assert(strip_bit_u(curr, up, dn, xu, ru) == crate::life::b2i(
            strip_cell(curr, up, dn, x, r - 1),
        ));
        assert(strip_bit_u(curr, up, dn, (xu + 1) as u64, ru) == crate::life::b2i(
            strip_cell(curr, up, dn, x + 1, r - 1),
        ));
        assert((if xu > 0 {
            strip_bit_u(curr, up, dn, (xu - 1) as u64, (ru + 1) as u64)
        } else {
            0u64
        }) == crate::life::b2i(strip_cell(curr, up, dn, x - 1, r)));
        assert(strip_bit_u(curr, up, dn, (xu + 1) as u64, (ru + 1) as u64) == crate::life::b2i(
            strip_cell(curr, up, dn, x + 1, r),
        ));
        assert((if xu > 0 {
            strip_bit_u(curr, up, dn, (xu - 1) as u64, (ru + 2) as u64)
        } else {
            0u64
        }) == crate::life::b2i(strip_cell(curr, up, dn, x - 1, r + 1)));
        assert(strip_bit_u(curr, up, dn, xu, (ru + 2) as u64) == crate::life::b2i(
            strip_cell(curr, up, dn, x, r + 1),
        ));
        assert(strip_bit_u(curr, up, dn, (xu + 1) as u64, (ru + 2) as u64) == crate::life::b2i(
            strip_cell(curr, up, dn, x + 1, r + 1),
        ));
        assert(strip_cell(curr, up, dn, x, r) == ((curr >> ((r * 16 + x) as u64)) & 1u64 == 1u64));
    }
}

/// Guarded strip bits are at most one.
proof fn lemma_strip_bit_le(curr: u64, up: u64, dn: u64)
    by (bit_vector)
    ensures
        forall|x: u64, rr: u64| #![auto] strip_bit_u(curr, up, dn, x, rr) <= 1,
{
}

/// Number of set bits of `w`, counted bit by bit.
fn pop_bits(w: u64) -> (r: u64)
    ensures
        r as int == pop64(w),
{
    let mut r: u64 = 0;
    let mut i: u64 = 0;
    while i < 64
        invariant
            0 <= i <= 64,
            r as int == popcount_upto(w, i as int),
            r <= i,
        decreases 64 - i,
    {
        proof {
            lemma_bit_le(w, i);
        }
        r = r + ((w >> i) & 1u64);
        i = i + 1;
    }
    r
}

/// Four populations of at most `2^120` cells sum below the `u128` range.
pub proof fn lemma_four_pops_fit()
    ensures
        4 * vstd::arithmetic::power2::pow2(120) < u128::MAX,
{
    vstd::arithmetic::power2::lemma_pow2_adds(60, 60);
    vstd::arithmetic::power2::lemma2_to64_rest();
    assert(vstd::arithmetic::power2::pow2(60) == 0x1000000000000000);
    assert(4 * (0x1000000000000000int * 0x1000000000000000int) < u128::MAX as int)
        by (nonlinear_arith);
}

/// A single extracted bit is at most one.
proof fn lemma_bit_le(v: u64, x: u64)
    by (bit_vector)
    requires
        x < 64,
    ensures
        (v >> x) & 1u64 <= 1,
        ((v >> x) & 1u64 == 1u64) == ((v >> x) & 1u64 != 0u64),
{
}

/// An all-zero word has no set bits below any position.
proof fn lemma_popcount_zero(n: int)
    ensures
        popcount_upto(0u64, n) == 0,
    decreases n,
{
    if n > 0 {
        lemma_popcount_zero(n - 1);
        lemma_zero_shift((n - 1) as u64);
    }
}

/// The zero word has no set bit at any position.
proof fn lemma_zero_shift(i: u64)
    by (bit_vector)
    ensures
        (0u64 >> i) & 1u64 == 0u64,
{
}

/// Mixes a payload into its bucket key.
fn hash_data(data: &NodeData) -> (h: u64)
    ensures
        h == spec_hash_data(*data),
{
    match data {
        NodeData::Leaf(bits) => *bits ^ 0x9e3779b97f4a7c15u64,
        NodeData::Branch { nw, ne, sw, se, level } => ((*nw as u64) ^ ((*ne as u64) << 13u64) ^ ((
        *sw as u64) << 29u64) ^ ((*se as u64) << 47u64) ^ ((*level as u64) << 56u64)),
    }
}

/// Structural equality of a slab node's payload with a candidate payload.
fn node_data_eq(n: &Node, data: &NodeData) -> (r: bool)
    ensures
        r == (n.data == *data),
{
    match (&n.data, data) {
        (NodeData::Leaf(a), NodeData::Leaf(b)) => *a == *b,
        (
            NodeData::Branch { nw: a0, ne: a1, sw: a2, se: a3, level: a4 },
            NodeData::Branch { nw: b0, ne: b1, sw: b2, se: b3, level: b4 },
        ) => *a0 == *b0 && *a1 == *b1 && *a2 == *b2 && *a3 == *b3 && *a4 == *b4,
        _ => false,
    }
}


/// The cell at `(x, y)` of an 8x8 leaf bitmap; dead outside it.
pub open spec fn leaf_cell(bits: u64, x: int, y: int) -> bool {
    0 <= x < 8 && 0 <= y < 8 && crate::life::bit64(bits, y * 8 + x)
}

/// Live neighbours of `(x, y)` inside an 8x8 leaf under a dead boundary.
pub open spec fn leaf_count(bits: u64, x: int, y: int) -> int {
    crate::life::b2i(leaf_cell(bits, x - 1, y - 1)) + crate::life::b2i(leaf_cell(bits, x, y - 1))
        + crate::life::b2i(leaf_cell(bits, x + 1, y - 1)) + crate::life::b2i(
        leaf_cell(bits, x - 1, y),
    ) + crate::life::b2i(leaf_cell(bits, x + 1, y)) + crate::life::b2i(
        leaf_cell(bits, x - 1, y + 1),
    ) + crate::life::b2i(leaf_cell(bits, x, y + 1)) + crate::life::b2i(
        leaf_cell(bits, x + 1, y + 1),
    )
}

/// A guarded bit of an 8x8 leaf, in machine form for the solver.
pub open spec fn leaf_bit_u(v: u64, x: u64, y: u64) -> u64 {
    if x < 8 && y < 8 {
        (v >> (y * 8 + x)) & 1u64
    } else {
        0u64
    }
}

/// Each bit the packed leaf step produces obeys the B3/S23 rule over the
/// eight in-leaf neighbours, with the boundary dead.
proof fn lemma_leaf_step_bit(input: u64, x: u64, y: u64)
    by (bit_vector)
    requires
        x < 8,
        y < 8,
    ensures
        ((spec_leaf_step(input) >> (y * 8 + x)) & 1u64 == 1u64) == ({
            let cnt = (if x > 0 && y > 0 {
                leaf_bit_u(input, (x - 1) as u64, (y - 1) as u64)
            } else {
                0u64
            }) + (if y > 0 {
                leaf_bit_u(input, x, (y - 1) as u64)
            } else {
                0u64
            }) + (if y > 0 {
                leaf_bit_u(input, (x + 1) as u64, (y - 1) as u64)
            } else {
                0u64
            }) + (if x > 0 {
                leaf_bit_u(input, (x - 1) as u64, y)
            } else {
                0u64
            }) + leaf_bit_u(input, (x + 1) as u64, y) + (if x > 0 {
                leaf_bit_u(input, (x - 1) as u64, (y + 1) as u64)
            } else {
                0u64
            }) + leaf_bit_u(input, x, (y + 1) as u64) + leaf_bit_u(
                input,
                (x + 1) as u64,
                (y + 1) as u64,
            );
            cnt == 3 || (cnt == 2 && (input >> (y * 8 + x)) & 1u64 == 1u64)
        }),
{
}

/// The leaf step is exactly one generation of the rule on the 8x8 square
/// with everything outside it dead.
pub proof fn lemma_leaf_step_is_one_generation(input: u64)
    ensures
        forall|x: int, y: int|
            0 <= x < 8 && 0 <= y < 8 ==> (#[trigger] leaf_cell(spec_leaf_step(input), x, y)
                == crate::life::life_rule(leaf_cell(input, x, y), leaf_count(input, x, y))),
{
    assert forall|x: int, y: int|
        0 <= x < 8 && 0 <= y < 8 implies (#[trigger] leaf_cell(spec_leaf_step(input), x, y)
        == crate::life::life_rule(leaf_cell(input, x, y), leaf_count(input, x, y))) by {
        let xu = x as u64;
        let yu = y as u64;
        lemma_leaf_step_bit(input, xu, yu);
        lemma_leaf_bit_le(input);
        assert(leaf_cell(spec_leaf_step(input), x, y) == ((spec_leaf_step(input) >> (yu * 8 + xu))
            & 1u64 == 1u64));
        assert((if xu > 0 && yu > 0 {
            leaf_bit_u(input, (xu - 1) as u64, (yu - 1) as u64)
        } else {
            0u64
        }) == crate::life::b2i(leaf_cell(input, x - 1, y - 1)));
        assert((if yu > 0 {
            leaf_bit_u(input, xu, (yu - 1) as u64)
        } else {
            0u64
        }) == crate::life::b2i(leaf_cell(input, x, y - 1)));
        assert((if yu > 0 {
            leaf_bit_u(input, (xu + 1) as u64, (yu - 1) as u64)
        } else {
            0u64
        }) == crate::life::b2i(leaf_cell(input, x + 1, y - 1)));
        assert((if xu > 0 {
            leaf_bit_u(input, (xu - 1) as u64, yu)
        } else {
            0u64
        }) == crate::life::b2i(leaf_cell(input, x - 1, y)));
        assert(leaf_bit_u(input, (xu + 1) as u64, yu) == crate::life::b2i(
            leaf_cell(input, x + 1, y),
        ));
        assert((if xu > 0 {
            leaf_bit_u(input, (xu - 1) as u64, (yu + 1) as u64)
        } else {
            0u64
        }) == crate::life::b2i(leaf_cell(input, x - 1, y + 1)));
        assert(leaf_bit_u(input, xu, (yu + 1) as u64) == crate::life::b2i(
            leaf_cell(input, x, y + 1),
        ));
        assert(leaf_bit_u(input, (xu + 1) as u64, (yu + 1) as u64) == crate::life::b2i(
            leaf_cell(input, x + 1, y + 1),
        ));
        assert(leaf_cell(input, x, y) == ((input >> (yu * 8 + xu)) & 1u64 == 1u64));
    }
}

/// Guarded leaf bits are at most one.
proof fn lemma_leaf_bit_le(v: u64)
    by (bit_vector)
    ensures
        forall|x: u64, y: u64| #![auto] leaf_bit_u(v, x, y) <= 1,
{
}


/// The 16x16 board four leaves form, NW at the low coordinates.
pub open spec fn board16_cell(nwb: u64, neb: u64, swb: u64, seb: u64, x: int, y: int) -> bool {
    if x < 8 {
        if y < 8 {
            leaf_cell(nwb, x, y)
        } else {
            leaf_cell(swb, x, y - 8)
        }
    } else {
        if y < 8 {
            leaf_cell(neb, x - 8, y)
        } else {
            leaf_cell(seb, x - 8, y - 8)
        }
    }
}

/// The live set of that board.
pub open spec fn board16_set(nwb: u64, neb: u64, swb: u64, seb: u64) -> Set<(int, int)> {
    Set::new(|p: (int, int)| board16_cell(nwb, neb, swb, seb, p.0, p.1))
}

/// The 16x16 board's area.
pub open spec fn board_region() -> Set<(int, int)> {
    Set::new(|p: (int, int)| 0 <= p.0 < 16 && 0 <= p.1 < 16)
}

/// `n` generations of the rule on the board with a dead boundary: cells
/// born outside the board are discarded each generation.
pub open spec fn sim16(n: nat, s: Set<(int, int)>) -> Set<(int, int)>
    decreases n,
{
    if n == 0 {
        s
    } else {
        sim16((n - 1) as nat, crate::life::life_next(s).intersect(board_region()))
    }
}

/// The board as the four packed words the simulator iterates: word `k`
/// holds rows `4k..4k+4`, sixteen bits per row.
pub open spec fn packed_cell(b0: u64, b1: u64, b2: u64, b3: u64, x: int, y: int) -> bool {
    &&& 0 <= x < 16
    &&& 0 <= y < 16
    &&& (if y < 4 {
        crate::life::bit64(b0, y * 16 + x)
    } else if y < 8 {
        crate::life::bit64(b1, (y - 4) * 16 + x)
    } else if y < 12 {
        crate::life::bit64(b2, (y - 8) * 16 + x)
    } else {
        crate::life::bit64(b3, (y - 12) * 16 + x)
    })
}

/// Live neighbours of a packed board cell.
pub open spec fn packed_count(b0: u64, b1: u64, b2: u64, b3: u64, x: int, y: int) -> int {
    crate::life::b2i(packed_cell(b0, b1, b2, b3, x - 1, y - 1)) + crate::life::b2i(
        packed_cell(b0, b1, b2, b3, x, y - 1),
    ) + crate::life::b2i(packed_cell(b0, b1, b2, b3, x + 1, y - 1)) + crate::life::b2i(
        packed_cell(b0, b1, b2, b3, x - 1, y),
    ) + crate::life::b2i(packed_cell(b0, b1, b2, b3, x + 1, y)) + crate::life::b2i(
        packed_cell(b0, b1, b2, b3, x - 1, y + 1),
    ) + crate::life::b2i(packed_cell(b0, b1, b2, b3, x, y + 1)) + crate::life::b2i(
        packed_cell(b0, b1, b2, b3, x + 1, y + 1),
    )
}

/// Simulating `n+1` board generations is one more after `n`.
proof fn lemma_sim16_snoc(s: Set<(int, int)>, n: nat)
    ensures
        sim16(n + 1, s) == crate::life::life_next(sim16(n, s)).intersect(board_region()),
    decreases n,
{
    assert(sim16(n + 1, s) == sim16(
        n,
        crate::life::life_next(s).intersect(board_region()),
    ));
    if n == 0 {
    } else {
        lemma_sim16_snoc(crate::life::life_next(s).intersect(board_region()), (n - 1) as nat);
        assert(sim16(n, s) == sim16(
            (n - 1) as nat,
            crate::life::life_next(s).intersect(board_region()),
        ));
    }
}

/// The dead-boundary simulation agrees with the true rule on the square
/// that shrinks by one cell per generation: influence travels at most
/// one cell per step, so for up to four generations the centre 8x8
/// window is exact.
proof fn lemma_sim16_agrees(s: Set<(int, int)>, k: nat)
    ensures
        forall|p: (int, int)|
            k <= p.0 < 16 - k && k <= p.1 < 16 - k ==> #[trigger] sim16(k, s).contains(p)
                == crate::life::life_steps(k, s).contains(p),
    decreases k,
{
    if k > 0 {
        let km = (k - 1) as nat;
        lemma_sim16_agrees(s, km);
        lemma_sim16_snoc(s, km);
        crate::life::lemma_life_steps_snoc(s, km);
        assert forall|p: (int, int)|
            k <= p.0 < 16 - k && k <= p.1 < 16 - k implies #[trigger] sim16(k, s).contains(p)
            == crate::life::life_steps(k, s).contains(p) by {
            assert forall|q: (int, int)|
                p.0 - 1 <= q.0 <= p.0 + 1 && p.1 - 1 <= q.1 <= p.1 + 1 implies #[trigger] sim16(
                km,
                s,
            ).contains(q) == crate::life::life_steps(km, s).contains(q) by {
                assert(km <= q.0 < 16 - km && km <= q.1 < 16 - km);
            }
            crate::life::lemma_life_next_local(
                sim16(km, s),
                crate::life::life_steps(km, s),
                p,
            );
            assert(board_region().contains(p));
        }
    }
}

/// For up to four generations the centre 8x8 window of the dead-boundary
/// board simulation shows the true evolution of the board's live set, so
/// the level-4 warp (four generations) and single-generation results are
/// exact on their window.
pub proof fn lemma_board_window_true_rule(
    nwb: u64,
    neb: u64,
    swb: u64,
    seb: u64,
    t: nat,
)
    requires
        t <= 4,
    ensures
        forall|p: (int, int)|
            4 <= p.0 < 12 && 4 <= p.1 < 12 ==> #[trigger] sim16(
                t,
                board16_set(nwb, neb, swb, seb),
            ).contains(p) == crate::life::life_steps(
                t,
                board16_set(nwb, neb, swb, seb),
            ).contains(p),
{
    lemma_sim16_agrees(board16_set(nwb, neb, swb, seb), t);
}

/// Bit selection of the quadrant zip: each packed row takes its low
/// eight bits from the left leaf and its high eight from the right one.
proof fn lemma_zip_bits(left: u64, right: u64, shift: u64, x: u64, r: u64)
    by (bit_vector)
    requires
        shift == 0 || shift == 32,
        x < 16,
        r < 4,
    ensures
        ((spec_zip(left, right, shift) >> (r * 16 + x)) & 1u64 == 1u64) == (if x < 8 {
            (left >> ((shift + r * 8 + x) as u64)) & 1u64 == 1u64
        } else {
            (right >> ((shift + r * 8 + (x - 8)) as u64)) & 1u64 == 1u64
        }),
{
}

/// Bit selection of the assembled centre: the result leaf's low rows come
/// from the middle columns of the second word, its high rows from the
/// third.
proof fn lemma_window_bits(b1: u64, b2: u64, x: u64, y: u64)
    by (bit_vector)
    requires
        x < 8,
        y < 8,
    ensures
        (((spec_compress(b1) | (spec_compress(b2) << 32u64)) >> (y * 8 + x)) & 1u64 == 1u64) == (
        if y < 4 {
            (b1 >> ((y * 16 + (x + 4)) as u64)) & 1u64 == 1u64
        } else {
            (b2 >> (((y - 4) * 16 + (x + 4)) as u64)) & 1u64 == 1u64
        }),
{
}

/// One packed iteration obeys the rule at every board cell.
proof fn lemma_packed_step(
    b0: u64,
    b1: u64,
    b2: u64,
    b3: u64,
    n0: u64,
    n1: u64,
    n2: u64,
    n3: u64,
    x: int,
    y: int,
)
    requires
        n0 == spec_step4(b0, 0u64, b1),
        n1 == spec_step4(b1, b0, b2),
        n2 == spec_step4(b2, b1, b3),
        n3 == spec_step4(b3, b2, 0u64),
        0 <= x < 16,
        0 <= y < 16,
    ensures
        packed_cell(n0, n1, n2, n3, x, y) == crate::life::life_rule(
            packed_cell(b0, b1, b2, b3, x, y),
            packed_count(b0, b1, b2, b3, x, y),
        ),
{
    lemma_step4_is_one_generation(b0, 0u64, b1);
    lemma_step4_is_one_generation(b1, b0, b2);
    lemma_step4_is_one_generation(b2, b1, b3);
    lemma_step4_is_one_generation(b3, b2, 0u64);
    lemma_zero_word();
    let k = y / 4;
    let rr = y % 4;
    assert(y == 4 * k + rr && 0 <= k < 4 && 0 <= rr < 4);
    let bk = if k == 0 { b0 } else if k == 1 { b1 } else if k == 2 { b2 } else { b3 };
    let uk = if k == 0 { 0u64 } else if k == 1 { b0 } else if k == 2 { b1 } else { b2 };
    let dk = if k == 0 { b1 } else if k == 1 { b2 } else if k == 2 { b3 } else { 0u64 };
    let nk = if k == 0 { n0 } else if k == 1 { n1 } else if k == 2 { n2 } else { n3 };
    assert(nk == spec_step4(bk, uk, dk));
    assert forall|xx: int, dr: int|
        0 <= xx < 16 && -1 <= dr <= 4 implies #[trigger] strip_cell(bk, uk, dk, xx, dr)
        == packed_cell(b0, b1, b2, b3, xx, 4 * k + dr) by {
        assert(crate::life::bit64(0u64, 48 + xx) == false);
        assert(crate::life::bit64(0u64, xx) == false);
    }
    assert(crate::life::bit64(nk, rr * 16 + x) == crate::life::life_rule(
        strip_cell(bk, uk, dk, x, rr),
        strip_count(bk, uk, dk, x, rr),
    ));
    assert(strip_cell(bk, uk, dk, x, rr) == packed_cell(b0, b1, b2, b3, x, y));
    assert(strip_count(bk, uk, dk, x, rr) == packed_count(b0, b1, b2, b3, x, y)) by {
        assert(strip_cell(bk, uk, dk, x - 1, rr - 1) == packed_cell(b0, b1, b2, b3, x - 1, y - 1));
        assert(strip_cell(bk, uk, dk, x, rr - 1) == packed_cell(b0, b1, b2, b3, x, y - 1));
        assert(strip_cell(bk, uk, dk, x + 1, rr - 1) == packed_cell(b0, b1, b2, b3, x + 1, y - 1));
        assert(strip_cell(bk, uk, dk, x - 1, rr) == packed_cell(b0, b1, b2, b3, x - 1, y));
        assert(strip_cell(bk, uk, dk, x + 1, rr) == packed_cell(b0, b1, b2, b3, x + 1, y));
        assert(strip_cell(bk, uk, dk, x - 1, rr + 1) == packed_cell(b0, b1, b2, b3, x - 1, y + 1));
        assert(strip_cell(bk, uk, dk, x, rr + 1) == packed_cell(b0, b1, b2, b3, x, y + 1));
        assert(strip_cell(bk, uk, dk, x + 1, rr + 1) == packed_cell(b0, b1, b2, b3, x + 1, y + 1));
    }
    assert(packed_cell(n0, n1, n2, n3, x, y) == crate::life::bit64(nk, rr * 16 + x));
}

/// The zero word has no set bit.
proof fn lemma_zero_word()
    by (bit_vector)
    ensures
        forall|i: u64| #![auto] (0u64 >> i) & 1u64 == 0u64,
{
}

/// A packed state that shows a set's cells steps to the set's
/// dead-boundary successor.
proof fn lemma_packed_matches_sim(
    b0: u64,
    b1: u64,
    b2: u64,
    b3: u64,
    n0: u64,
    n1: u64,
    n2: u64,
    n3: u64,
    s: Set<(int, int)>,
)
    requires
        n0 == spec_step4(b0, 0u64, b1),
        n1 == spec_step4(b1, b0, b2),
        n2 == spec_step4(b2, b1, b3),
        n3 == spec_step4(b3, b2, 0u64),
        forall|p: (int, int)| s.contains(p) == packed_cell(b0, b1, b2, b3, p.0, p.1),
    ensures
        forall|p: (int, int)|
            crate::life::life_next(s).intersect(board_region()).contains(p) == packed_cell(
                n0,
                n1,
                n2,
                n3,
                p.0,
                p.1,
            ),
{
    assert forall|p: (int, int)|
        crate::life::life_next(s).intersect(board_region()).contains(p) == packed_cell(
            n0,
            n1,
            n2,
            n3,
            p.0,
            p.1,
        ) by {
        if 0 <= p.0 < 16 && 0 <= p.1 < 16 {
            lemma_packed_step(b0, b1, b2, b3, n0, n1, n2, n3, p.0, p.1);
            assert(packed_count(b0, b1, b2, b3, p.0, p.1) == crate::life::neighbor_count(
                s,
                p.0,
                p.1,
            ));
            assert(packed_cell(b0, b1, b2, b3, p.0, p.1) == s.contains(p));
        }
    }
}

} // verus!
