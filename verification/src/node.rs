//! Quadtree nodes for the HashLife engine.
//!
//! Nodes live in one growable slab owned by the cache and refer to their
//! children by slab index.  A node is immutable once created; canonical
//! sharing makes index equality coincide with structural equality.  A leaf
//! packs an 8x8 cell grid into one word (bit `y*8 + x` is the cell at
//! `(x, y)` of the leaf); a branch at level `L >= 4` has four children of
//! level `L-1` laid out NW, NE, SW, SE, NW at the low coordinates.

use vstd::prelude::*;

use crate::life::b2i;
use crate::life::bit64;
use vstd::arithmetic::power2::pow2;

verus! {

/// The payload of a node: an 8x8 leaf bitmap, or four child indices.
#[derive(Clone, Copy, Debug)]
pub enum NodeData {
    Leaf(u64),
    Branch { nw: usize, ne: usize, sw: usize, se: usize, level: u8 },
}

/// A quadtree node: its payload, its live-cell count, and the two memoised
/// evolution results (the warp jump of `2^(L-2)` generations, and the
/// single-generation step), each an index into the same slab.
#[derive(Clone, Copy, Debug)]
pub struct Node {
    pub data: NodeData,
    pub population: u128,
    pub result: Option<usize>,
    pub result_step_1: Option<usize>,
}

/// Level of a payload: 3 for a leaf, the stored level for a branch.
pub open spec fn data_level(d: NodeData) -> int {
    match d {
        NodeData::Leaf(_) => 3,
        NodeData::Branch { level, .. } => level as int,
    }
}

/// Level of slab entry `i`.
pub open spec fn node_level(nodes: Seq<Node>, i: int) -> int {
    data_level(nodes[i].data)
}

/// Side length of a node of level `l`.
pub open spec fn level_size(l: int) -> int {
    pow2(l as nat) as int
}

impl Node {
    /// Level of this node.
    pub open spec fn spec_level(&self) -> int {
        data_level(self.data)
    }

    /// Level of this node: 3 for a leaf, the stored level for a branch.
    pub fn level(&self) -> (r: u8)
        ensures
            r as int == self.spec_level(),
    {
        match &self.data {
            NodeData::Leaf(_) => 3,
            NodeData::Branch { level, .. } => *level,
        }
    }
}

/// Number of set bits among bit positions `[0, n)` of `w`.
pub open spec fn popcount_upto(w: u64, n: int) -> int
    decreases n,
{
    if n <= 0 {
        0
    } else {
        popcount_upto(w, n - 1) + b2i(bit64(w, n - 1))
    }
}

/// Number of set bits of `w`.
pub open spec fn pop64(w: u64) -> int {
    popcount_upto(w, 64)
}

/// The cell at `(x, y)` of the node at slab entry `i`, with the node's own
/// NW corner at `(0, 0)`; dead outside the node's square, and everywhere on
/// a malformed entry.
pub open spec fn node_cells(nodes: Seq<Node>, i: int, x: int, y: int) -> bool
    decreases i,
{
    if 0 <= i < nodes.len() {
        match nodes[i].data {
            NodeData::Leaf(bits) => 0 <= x < 8 && 0 <= y < 8 && bit64(bits, y * 8 + x),
            NodeData::Branch { nw, ne, sw, se, level } => {
                if 0 <= nw < i && 0 <= ne < i && 0 <= sw < i && 0 <= se < i {
                    let half = level_size(level - 1);
                    if x < half {
                        if y < half {
                            node_cells(nodes, nw as int, x, y)
                        } else {
                            node_cells(nodes, sw as int, x, y - half)
                        }
                    } else {
                        if y < half {
                            node_cells(nodes, ne as int, x - half, y)
                        } else {
                            node_cells(nodes, se as int, x - half, y - half)
                        }
                    }
                } else {
                    false
                }
            },
        }
    } else {
        false
    }
}

/// Live-cell count of the node at slab entry `i`.
pub open spec fn node_pop(nodes: Seq<Node>, i: int) -> int
    decreases i,
{
    if 0 <= i < nodes.len() {
        match nodes[i].data {
            NodeData::Leaf(bits) => pop64(bits),
            NodeData::Branch { nw, ne, sw, se, .. } => {
                if 0 <= nw < i && 0 <= ne < i && 0 <= sw < i && 0 <= se < i {
                    node_pop(nodes, nw as int) + node_pop(nodes, ne as int) + node_pop(
                        nodes,
                        sw as int,
                    ) + node_pop(nodes, se as int)
                } else {
                    0
                }
            },
        }
    } else {
        0
    }
}

/// Local well-formedness of slab entry `i`: children precede it and sit one
/// level below, the level is in range, and the stored population is the
/// true live-cell count.
pub open spec fn wf_node_at(nodes: Seq<Node>, i: int) -> bool {
    &&& (match nodes[i].data {
        NodeData::Leaf(_) => true,
        NodeData::Branch { nw, ne, sw, se, level } => {
            &&& nw < i
            &&& ne < i
            &&& sw < i
            &&& se < i
            &&& 4 <= level <= 60
            &&& node_level(nodes, nw as int) == level - 1
            &&& node_level(nodes, ne as int) == level - 1
            &&& node_level(nodes, sw as int) == level - 1
            &&& node_level(nodes, se as int) == level - 1
        },
    })
    &&& nodes[i].population as int == node_pop(nodes, i)
}

/// Well-formedness of the whole slab.
pub open spec fn wf_nodes(nodes: Seq<Node>) -> bool {
    forall|i: int| 0 <= i < nodes.len() ==> #[trigger] wf_node_at(nodes, i)
}

/// No two slab entries hold the same payload: every node is canonical.
pub open spec fn unique_data(nodes: Seq<Node>) -> bool {
    forall|i: int, j: int|
        0 <= i < nodes.len() && 0 <= j < nodes.len() && i != j ==> nodes[i].data != nodes[j].data
}

/// Level of an evolution result for a node of level `l`: one level down,
/// except that a leaf steps in place.
pub open spec fn evolved_level(l: int) -> int {
    if l == 3 {
        3
    } else {
        l - 1
    }
}

/// A memoised result, when present, points into the slab at the level an
/// evolution result has.
pub open spec fn memo_ok_at(nodes: Seq<Node>, i: int) -> bool {
    &&& (match nodes[i].result {
        Option::Some(j) => j < nodes.len() && node_level(nodes, j as int) == evolved_level(
            node_level(nodes, i),
        ),
        Option::None => true,
    })
    &&& (match nodes[i].result_step_1 {
        Option::Some(j) => j < nodes.len() && node_level(nodes, j as int) == evolved_level(
            node_level(nodes, i),
        ),
        Option::None => true,
    })
}

/// Every memo slot of the slab is well-shaped.
pub open spec fn memo_ok(nodes: Seq<Node>) -> bool {
    forall|i: int| 0 <= i < nodes.len() ==> #[trigger] memo_ok_at(nodes, i)
}

/// The four quadrants of a would-be branch, composed side by side with NW
/// at the low coordinates.
pub open spec fn quad_cells(
    nodes: Seq<Node>,
    nw: int,
    ne: int,
    sw: int,
    se: int,
    half: int,
    x: int,
    y: int,
) -> bool {
    if x < half {
        if y < half {
            node_cells(nodes, nw, x, y)
        } else {
            node_cells(nodes, sw, x, y - half)
        }
    } else {
        if y < half {
            node_cells(nodes, ne, x - half, y)
        } else {
            node_cells(nodes, se, x - half, y - half)
        }
    }
}

/// `node_cells`, `node_pop`, `node_level` and `wf_node_at` at entry `i`
/// consult only entries `0..=i`, so they survive appending to the slab.
pub proof fn lemma_node_prefix(a: Seq<Node>, b: Seq<Node>, i: int)
    requires
        0 <= i < a.len(),
        a.len() <= b.len(),
        forall|j: int|
            0 <= j <= i ==> a[j].data == b[j].data && a[j].population == b[j].population,
    ensures
        forall|x: int, y: int| node_cells(a, i, x, y) == node_cells(b, i, x, y),
        node_pop(a, i) == node_pop(b, i),
        node_level(a, i) == node_level(b, i),
        wf_node_at(a, i) == wf_node_at(b, i),
    decreases i,
{
    assert(a[i].data == b[i].data);
    match a[i].data {
        NodeData::Leaf(_) => {},
        NodeData::Branch { nw, ne, sw, se, .. } => {
            if 0 <= nw < i && 0 <= ne < i && 0 <= sw < i && 0 <= se < i {
                lemma_node_prefix(a, b, nw as int);
                lemma_node_prefix(a, b, ne as int);
                lemma_node_prefix(a, b, sw as int);
                lemma_node_prefix(a, b, se as int);
                assert forall|x: int, y: int| node_cells(a, i, x, y) == node_cells(b, i, x, y) by {
                    assert(node_cells(a, nw as int, x, y) == node_cells(b, nw as int, x, y));
                    assert(node_cells(a, ne as int, x, y) == node_cells(b, ne as int, x, y));
                    assert(node_cells(a, sw as int, x, y) == node_cells(b, sw as int, x, y));
                    assert(node_cells(a, se as int, x, y) == node_cells(b, se as int, x, y));
                    let half = level_size(data_level(a[i].data) - 1);
                    assert(node_cells(a, nw as int, x, y - half) == node_cells(
                        b,
                        nw as int,
                        x,
                        y - half,
                    ));
                    assert(node_cells(a, sw as int, x, y - half) == node_cells(
                        b,
                        sw as int,
                        x,
                        y - half,
                    ));
                    assert(node_cells(a, ne as int, x - half, y) == node_cells(
                        b,
                        ne as int,
                        x - half,
                        y,
                    ));
                    assert(node_cells(a, se as int, x - half, y - half) == node_cells(
                        b,
                        se as int,
                        x - half,
                        y - half,
                    ));
                }
            }
        },
    }
}

/// The bit count over a prefix of positions is non-negative and at most
/// the prefix length.
pub proof fn lemma_popcount_le(w: u64, n: int)
    ensures
        0 <= popcount_upto(w, n) <= if n >= 0 {
            n
        } else {
            0
        },
    decreases n,
{
    if n > 0 {
        lemma_popcount_le(w, n - 1);
    }
}

/// A well-formed node holds at most one live cell per cell of its square.
pub proof fn lemma_pop_bound(nodes: Seq<Node>, i: int)
    requires
        wf_nodes(nodes),
        0 <= i < nodes.len(),
    ensures
        0 <= node_pop(nodes, i) <= level_size(node_level(nodes, i)) * level_size(
            node_level(nodes, i),
        ),
    decreases i,
{
    assert(wf_node_at(nodes, i));
    match nodes[i].data {
        NodeData::Leaf(bits) => {
            lemma_popcount_le(bits, 64);
            vstd::arithmetic::power2::lemma2_to64();
            assert(level_size(3) == 8);
            assert(level_size(3) * level_size(3) == 64) by (nonlinear_arith)
                requires
                    level_size(3) == 8,
            ;
        },
        NodeData::Branch { nw, ne, sw, se, level } => {
            lemma_pop_bound(nodes, nw as int);
            lemma_pop_bound(nodes, ne as int);
            lemma_pop_bound(nodes, sw as int);
            lemma_pop_bound(nodes, se as int);
            let lv = level as int;
            let h = level_size(lv - 1);
            vstd::arithmetic::power2::lemma_pow2_unfold(lv as nat);
            vstd::arithmetic::power2::lemma_pow2_pos((lv - 1) as nat);
            assert((lv as nat - 1) as nat == (lv - 1) as nat);
            assert(level_size(lv) == 2 * h);
            assert(node_pop(nodes, nw as int) <= h * h);
            assert(node_pop(nodes, ne as int) <= h * h);
            assert(node_pop(nodes, sw as int) <= h * h);
            assert(node_pop(nodes, se as int) <= h * h);
            assert(node_pop(nodes, i) <= 4 * (h * h));
            assert((2 * h) * (2 * h) == 4 * (h * h)) by (nonlinear_arith);
            assert(node_pop(nodes, i) <= level_size(lv) * level_size(lv));
        },
    }
}

/// Populations of well-formed nodes stay below `2^120`, since levels are
/// capped at 60; sums of four of them fit a `u128` with room to spare.
pub proof fn lemma_pop_fits(nodes: Seq<Node>, i: int)
    requires
        wf_nodes(nodes),
        0 <= i < nodes.len(),
    ensures
        0 <= node_pop(nodes, i) <= pow2(120),
{
    lemma_pop_bound(nodes, i);
    assert(wf_node_at(nodes, i));
    let l = node_level(nodes, i) as nat;
    vstd::arithmetic::power2::lemma_pow2_adds(l, l);
    if 2 * l < 120 {
        vstd::arithmetic::power2::lemma_pow2_strictly_increases(2 * l, 120);
    }
}

/// A word whose bit count over `[0, n)` is zero has no set bit there.
pub proof fn lemma_popcount_all_zero(w: u64, n: int)
    requires
        popcount_upto(w, n) == 0,
    ensures
        forall|k: int| 0 <= k < n ==> !bit64(w, k),
    decreases n,
{
    if n > 0 {
        lemma_popcount_le(w, n - 1);
        lemma_popcount_all_zero(w, n - 1);
    }
}

/// A well-formed node with population zero has no live cell.
pub proof fn lemma_zero_pop_no_cells(nodes: Seq<Node>, i: int)
    requires
        wf_nodes(nodes),
        0 <= i < nodes.len(),
        node_pop(nodes, i) == 0,
    ensures
        forall|x: int, y: int| !node_cells(nodes, i, x, y),
    decreases i,
{
    assert(wf_node_at(nodes, i));
    match nodes[i].data {
        NodeData::Leaf(bits) => {
            lemma_popcount_all_zero(bits, 64);
            assert forall|x: int, y: int| !node_cells(nodes, i, x, y) by {
                if 0 <= x < 8 && 0 <= y < 8 {
                    assert(0 <= y * 8 + x < 64);
                }
            }
        },
        NodeData::Branch { nw, ne, sw, se, level } => {
            lemma_pop_bound(nodes, nw as int);
            lemma_pop_bound(nodes, ne as int);
            lemma_pop_bound(nodes, sw as int);
            lemma_pop_bound(nodes, se as int);
            lemma_zero_pop_no_cells(nodes, nw as int);
            lemma_zero_pop_no_cells(nodes, ne as int);
            lemma_zero_pop_no_cells(nodes, sw as int);
            lemma_zero_pop_no_cells(nodes, se as int);
            let half = level_size(level - 1);
            assert forall|x: int, y: int| !node_cells(nodes, i, x, y) by {
                assert(!node_cells(nodes, nw as int, x, y));
                assert(!node_cells(nodes, sw as int, x, y - half));
                assert(!node_cells(nodes, ne as int, x - half, y));
                assert(!node_cells(nodes, se as int, x - half, y - half));
            }
        },
    }
}

/// Cells of a doubled universe: a root whose four quadrants each hold one
/// old quadrant at their inward corner (and empty nodes elsewhere) shows
/// the old root's cells shifted by half the old side length.
#[verifier::rlimit(100)]
pub proof fn lemma_expand_cells(
    b: Seq<Node>,
    root2: usize,
    n_nw: usize,
    n_ne: usize,
    n_sw: usize,
    n_se: usize,
    e: usize,
    nw: usize,
    ne: usize,
    sw: usize,
    se: usize,
    level: u8,
)
    requires
        wf_nodes(b),
        root2 < b.len(),
        e < b.len(),
        4 <= level <= 59,
        b[root2 as int].data == (NodeData::Branch {
            nw: n_nw,
            ne: n_ne,
            sw: n_sw,
            se: n_se,
            level: (level + 1) as u8,
        }),
        n_nw < b.len() && b[n_nw as int].data == (NodeData::Branch {
            nw: e,
            ne: e,
            sw: e,
            se: nw,
            level: level,
        }),
        n_ne < b.len() && b[n_ne as int].data == (NodeData::Branch {
            nw: e,
            ne: e,
            sw: ne,
            se: e,
            level: level,
        }),
        n_sw < b.len() && b[n_sw as int].data == (NodeData::Branch {
            nw: e,
            ne: sw,
            sw: e,
            se: e,
            level: level,
        }),
        n_se < b.len() && b[n_se as int].data == (NodeData::Branch {
            nw: se,
            ne: e,
            sw: e,
            se: e,
            level: level,
        }),
        node_pop(b, e as int) == 0,
        nw < b.len(),
        ne < b.len(),
        sw < b.len(),
        se < b.len(),
    ensures
        forall|x: int, y: int|
            node_cells(b, root2 as int, x, y) == quad_cells(
                b,
                nw as int,
                ne as int,
                sw as int,
                se as int,
                level_size(level as int - 1),
                x - level_size(level as int - 1),
                y - level_size(level as int - 1),
            ),
{
    let h = level_size(level as int - 1);
    let hh = level_size(level as int);
    vstd::arithmetic::power2::lemma_pow2_unfold(level as nat);
    vstd::arithmetic::power2::lemma_pow2_pos((level - 1) as nat);
    assert(hh == 2 * h);
    lemma_zero_pop_no_cells(b, e as int);
    assert(wf_node_at(b, root2 as int));
    assert(wf_node_at(b, n_nw as int));
    assert(wf_node_at(b, n_ne as int));
    assert(wf_node_at(b, n_sw as int));
    assert(wf_node_at(b, n_se as int));
    assert forall|x: int, y: int|
        node_cells(b, root2 as int, x, y) == quad_cells(
            b,
            nw as int,
            ne as int,
            sw as int,
            se as int,
            h,
            x - h,
            y - h,
        ) by {
        assert(node_cells(b, root2 as int, x, y) == quad_cells(
            b,
            n_nw as int,
            n_ne as int,
            n_sw as int,
            n_se as int,
            hh,
            x,
            y,
        ));
        assert(node_cells(b, n_nw as int, x, y) == quad_cells(
            b,
            e as int,
            e as int,
            e as int,
            nw as int,
            h,
            x,
            y,
        ));
        assert(node_cells(b, n_ne as int, x - hh, y) == quad_cells(
            b,
            e as int,
            e as int,
            ne as int,
            e as int,
            h,
            x - hh,
            y,
        ));
        assert(node_cells(b, n_sw as int, x, y - hh) == quad_cells(
            b,
            e as int,
            sw as int,
            e as int,
            e as int,
            h,
            x,
            y - hh,
        ));
        assert(node_cells(b, n_se as int, x - hh, y - hh) == quad_cells(
            b,
            se as int,
            e as int,
            e as int,
            e as int,
            h,
            x - hh,
            y - hh,
        ));
        if node_cells(b, nw as int, x - h, y - h) {
            lemma_cells_in_bounds(b, nw as int, x - h, y - h);
        }
        if node_cells(b, ne as int, x - hh, y - h) {
            lemma_cells_in_bounds(b, ne as int, x - hh, y - h);
        }
        if node_cells(b, sw as int, x - h, y - hh) {
            lemma_cells_in_bounds(b, sw as int, x - h, y - hh);
        }
        if node_cells(b, se as int, x - hh, y - hh) {
            lemma_cells_in_bounds(b, se as int, x - hh, y - hh);
        }
        assert(wf_node_at(b, nw as int));
        assert(wf_node_at(b, ne as int));
        assert(wf_node_at(b, sw as int));
        assert(wf_node_at(b, se as int));
    }
}

/// A sequence without repeated entries.
pub open spec fn no_dups<T>(s: Seq<T>) -> bool {
    forall|i: int, j: int| 0 <= i < j < s.len() ==> s[i] != s[j]
}

/// Live cells of a well-formed node lie inside its `2^L x 2^L` square.
pub proof fn lemma_cells_in_bounds(nodes: Seq<Node>, i: int, x: int, y: int)
    requires
        wf_nodes(nodes),
        0 <= i < nodes.len(),
        node_cells(nodes, i, x, y),
    ensures
        0 <= x < level_size(node_level(nodes, i)),
        0 <= y < level_size(node_level(nodes, i)),
    decreases i,
{
    assert(wf_node_at(nodes, i));
    match nodes[i].data {
        NodeData::Leaf(_) => {
            vstd::arithmetic::power2::lemma2_to64();
        },
        NodeData::Branch { nw, ne, sw, se, level } => {
            let half = level_size(level - 1);
            vstd::arithmetic::power2::lemma_pow2_pos((level - 1) as nat);
            vstd::arithmetic::power2::lemma_pow2_unfold(level as nat);
            if x < half {
                if y < half {
                    lemma_cells_in_bounds(nodes, nw as int, x, y);
                } else {
                    lemma_cells_in_bounds(nodes, sw as int, x, y - half);
                }
            } else {
                if y < half {
                    lemma_cells_in_bounds(nodes, ne as int, x - half, y);
                } else {
                    lemma_cells_in_bounds(nodes, se as int, x - half, y - half);
                }
            }
        },
    }
}

} // verus!
