//! The HashLife universe: a hash-consed quadtree root, an origin offset
//! placing the root's NW corner in world coordinates, and a generation
//! counter.
//!
//! The span of the root is always the square of side `2^L` centred on the
//! world point `(8, 8)`: expansion and stepping both preserve that centre,
//! so the origin is determined by the root level alone.

use vstd::prelude::*;

use crate::cache::HashlifeCache;
use crate::node::level_size;
use crate::node::lemma_cells_in_bounds;
use crate::node::lemma_zero_pop_no_cells;
use crate::node::node_cells;
use crate::node::node_level;
use crate::node::node_pop;
use crate::node::wf_node_at;
use crate::node::Node;
use crate::node::NodeData;

verus! {

/// Coordinates close enough to the origin that the quadtree engine's
/// bounded expansion (twenty doublings from any state) always covers
/// them: everything within `2^23 - 8` cells.
pub open spec fn in_friendly_range(p: (i64, i64)) -> bool {
    -0x7FFFF8 <= p.0 <= 0x7FFFF8 && -0x7FFFF8 <= p.1 <= 0x7FFFF8
}

/// Bit of an 8x8 leaf bitmap at local coordinate `(a, c)`.
pub open spec fn leaf_bit_at(bits: u64, a: int, c: int) -> bool {
    crate::life::bit64(bits, c * 8 + a)
}

/// Whether a coordinate lies in the square with corner `(x, y)` and the
/// given side length.
pub open spec fn in_square(p: (i64, i64), x: int, y: int, size: int) -> bool {
    x <= p.0 < x + size && y <= p.1 < y + size
}

/// The set of coordinates a list holds.
pub open spec fn coord_set(s: Seq<(i64, i64)>) -> Set<(int, int)> {
    Set::new(
        |q: (int, int)|
            exists|k: int|
                0 <= k < s.len() && (#[trigger] s[k]).0 == q.0 && s[k].1 == q.1,
    )
}

/// Extending a coordinate list by one entry adds exactly that coordinate
/// to its set.
pub proof fn lemma_coord_set_take(s: Seq<(i64, i64)>, k: int)
    requires
        0 <= k < s.len(),
    ensures
        coord_set(s.take(k + 1)) =~= coord_set(s.take(k)).insert((s[k].0 as int, s[k].1 as int)),
{
    assert forall|q: (int, int)|
        coord_set(s.take(k + 1)).contains(q) == coord_set(s.take(k)).insert(
            (s[k].0 as int, s[k].1 as int),
        ).contains(q) by {
        if coord_set(s.take(k + 1)).contains(q) {
            let m = choose|m: int|
                0 <= m < s.take(k + 1).len() && (#[trigger] s.take(k + 1)[m]).0 == q.0 && s.take(
                    k + 1,
                )[m].1 == q.1;
            if m < k {
                assert(s.take(k)[m] == s[m]);
                assert(coord_set(s.take(k)).contains(q));
            } else {
                assert(s.take(k + 1)[m] == s[k]);
            }
        }
        if coord_set(s.take(k)).contains(q) {
            let m = choose|m: int|
                0 <= m < s.take(k).len() && (#[trigger] s.take(k)[m]).0 == q.0 && s.take(k)[m].1
                    == q.1;
            assert(s.take(k + 1)[m] == s[m]);
            assert(coord_set(s.take(k + 1)).contains(q));
        }
        if q == (s[k].0 as int, s[k].1 as int) {
            assert(s.take(k + 1)[k] == s[k]);
            assert(coord_set(s.take(k + 1)).contains(q));
        }
    }
}

/// Live-cell count of one quadrant of a node (zero for a leaf); quadrants
/// are numbered NW, NE, SW, SE.
pub open spec fn sub_pop(nodes: Seq<Node>, i: int, q: int) -> int {
    match nodes[i].data {
        NodeData::Branch { nw, ne, sw, se, .. } => {
            if q == 0 {
                node_pop(nodes, nw as int)
            } else if q == 1 {
                node_pop(nodes, ne as int)
            } else if q == 2 {
                node_pop(nodes, sw as int)
            } else {
                node_pop(nodes, se as int)
            }
        },
        NodeData::Leaf(_) => 0,
    }
}

/// The padding condition: the root's population all lies in the four
/// inward quadrants of its children.
pub open spec fn spec_padded(u: Hashlife) -> bool {
    match u.cache.nodes@[u.root as int].data {
        NodeData::Branch { nw, ne, sw, se, .. } => node_pop(u.cache.nodes@, u.root as int)
            == sub_pop(u.cache.nodes@, nw as int, 3) + sub_pop(u.cache.nodes@, ne as int, 2)
            + sub_pop(u.cache.nodes@, sw as int, 1) + sub_pop(u.cache.nodes@, se as int, 0),
        NodeData::Leaf(_) => false,
    }
}

/// The live cells of an 8x8 leaf bitmap at world corner `(x, y)`, listed
/// in bit order over the first `j` bit positions.
pub open spec fn leaf_seq(bits: u64, x: i64, y: i64, j: int) -> Seq<(i64, i64)>
    decreases j,
{
    if j <= 0 {
        Seq::empty()
    } else {
        let prev = leaf_seq(bits, x, y, j - 1);
        if crate::life::bit64(bits, j - 1) {
            prev.push((((x + (j - 1) % 8) as i64), ((y + (j - 1) / 8) as i64)))
        } else {
            prev
        }
    }
}

/// The leaf listing holds exactly the set bits below `j`, each once, all
/// inside the leaf square.
pub proof fn lemma_leaf_seq_props(bits: u64, x: i64, y: i64, j: int)
    requires
        0 <= j <= 64,
        -0x4000_0000_0000_0000 <= x,
        x + 8 <= 0x4000_0000_0000_0000,
        -0x4000_0000_0000_0000 <= y,
        y + 8 <= 0x4000_0000_0000_0000,
    ensures
        crate::node::no_dups(leaf_seq(bits, x, y, j)),
        forall|p: (i64, i64)|
            leaf_seq(bits, x, y, j).contains(p) <==> (0 <= p.0 - x < 8 && 0 <= p.1 - y < 8 && (p.1
                - y) * 8 + (p.0 - x) < j && crate::life::bit64(bits, (p.1 - y) * 8 + (p.0 - x))),
        forall|k: int|
            0 <= k < leaf_seq(bits, x, y, j).len() ==> in_square(
                #[trigger] leaf_seq(bits, x, y, j)[k],
                x as int,
                y as int,
                8,
            ),
    decreases j,
{
    if j > 0 {
        lemma_leaf_seq_props(bits, x, y, j - 1);
        let prev = leaf_seq(bits, x, y, j - 1);
        let cur = leaf_seq(bits, x, y, j);
        if crate::life::bit64(bits, j - 1) {
            let q = (((x + (j - 1) % 8) as i64), ((y + (j - 1) / 8) as i64));
            assert(0 <= (j - 1) % 8 < 8 && 0 <= (j - 1) / 8 < 8);
            assert(q.0 - x == (j - 1) % 8 && q.1 - y == (j - 1) / 8);
            assert((q.1 - y) * 8 + (q.0 - x) == j - 1);
            assert(cur =~= prev.push(q));
            assert forall|p: (i64, i64)|
                cur.contains(p) == (prev.contains(p) || p == q) by {
                if cur.contains(p) {
                    let k = choose|k: int| 0 <= k < cur.len() && cur[k] == p;
                    if k < prev.len() {
                        assert(prev[k] == p);
                    }
                }
                if prev.contains(p) {
                    let k = choose|k: int| 0 <= k < prev.len() && prev[k] == p;
                    assert(cur[k] == p);
                }
                if p == q {
                    assert(cur[prev.len() as int] == q);
                }
            }
            assert forall|p: (i64, i64)|
                cur.contains(p) == (0 <= p.0 - x < 8 && 0 <= p.1 - y < 8 && (p.1 - y) * 8 + (p.0
                    - x) < j && crate::life::bit64(bits, (p.1 - y) * 8 + (p.0 - x))) by {
                if p == q {
                    assert((p.1 - y) * 8 + (p.0 - x) == j - 1 < j);
                }
            }
            assert forall|i1: int, i2: int|
                0 <= i1 < i2 < cur.len() implies cur[i1] != cur[i2] by {
                if i2 == cur.len() - 1 {
                    assert(cur[i2] == q);
                    assert(cur[i1] == prev[i1]);
                    assert(prev.contains(prev[i1]));
                    if prev[i1] == q {
                        assert((q.1 - y) * 8 + (q.0 - x) < j - 1);
                    }
                } else {
                    assert(cur[i1] == prev[i1] && cur[i2] == prev[i2]);
                }
            }
        } else {
            assert(cur =~= prev);
            assert forall|p: (i64, i64)|
                cur.contains(p) == (0 <= p.0 - x < 8 && 0 <= p.1 - y < 8 && (p.1 - y) * 8 + (p.0
                    - x) < j && crate::life::bit64(bits, (p.1 - y) * 8 + (p.0 - x))) by {
                if 0 <= p.0 - x < 8 && 0 <= p.1 - y < 8 && (p.1 - y) * 8 + (p.0 - x) < j
                    && crate::life::bit64(bits, (p.1 - y) * 8 + (p.0 - x)) {
                    assert((p.1 - y) * 8 + (p.0 - x) != j - 1);
                }
            }
        }
    }
}

/// Membership in a concatenation splits over the parts.
pub proof fn lemma_concat_contains(a: Seq<(i64, i64)>, b: Seq<(i64, i64)>, p: (i64, i64))
    ensures
        (a + b).contains(p) == (a.contains(p) || b.contains(p)),
{
    if (a + b).contains(p) {
        let k = choose|k: int| 0 <= k < (a + b).len() && (a + b)[k] == p;
        if k < a.len() {
            assert(a[k] == p);
        } else {
            assert(b[k - a.len()] == p);
        }
    }
    if a.contains(p) {
        let k = choose|k: int| 0 <= k < a.len() && a[k] == p;
        assert((a + b)[k] == p);
    }
    if b.contains(p) {
        let k = choose|k: int| 0 <= k < b.len() && b[k] == p;
        assert((a + b)[a.len() + k] == p);
    }
}

/// A coordinate below a list whose entries avoid a square, or inside that
/// square's NW quarter, avoids the three other quarters.
proof fn lemma_not_in_outer(l0: Seq<(i64, i64)>, p: (i64, i64), x: int, y: int, hf: int)
    requires
        forall|k: int| 0 <= k < l0.len() ==> !in_square(#[trigger] l0[k], x, y, 2 * hf),
        l0.contains(p) || in_square(p, x, y, hf),
        hf >= 1,
    ensures
        !in_square(p, x + hf, y, hf),
        !in_square(p, x, y + hf, hf),
        !in_square(p, x + hf, y + hf, hf),
{
    if l0.contains(p) {
        let m = choose|m: int| 0 <= m < l0.len() && l0[m] == p;
        assert(!in_square(l0[m], x, y, 2 * hf));
    }
}

/// A coordinate that fits a root square keeps fitting after one doubling,
/// since the square grows around the same centre.
proof fn lemma_fits_grows(a: Hashlife, b: Hashlife, x: int, y: int)
    requires
        a.wf(),
        b.wf(),
        b.root_level() == a.root_level() + 1,
    ensures
        a.fits(x, y) ==> b.fits(x, y),
{
    vstd::arithmetic::power2::lemma_pow2_unfold(a.root_level() as nat);
    vstd::arithmetic::power2::lemma_pow2_unfold(b.root_level() as nat);
    vstd::arithmetic::power2::lemma_pow2_pos((a.root_level() - 1) as nat);
}

/// A root square of level 24 or more covers every coordinate within
/// `2^23 - 8` cells of the origin.
proof fn lemma_wide_fits(u: Hashlife, x: int, y: int)
    requires
        u.wf(),
        u.root_level() >= 24,
        -0x7FFFF8 <= x <= 0x7FFFF8,
        -0x7FFFF8 <= y <= 0x7FFFF8,
    ensures
        u.fits(x, y),
{
    vstd::arithmetic::power2::lemma2_to64();
    if u.root_level() - 1 > 23 {
        vstd::arithmetic::power2::lemma_pow2_strictly_increases(23, (u.root_level() - 1) as nat);
    }
    vstd::arithmetic::power2::lemma_pow2_unfold(u.root_level() as nat);
}

/// The HashLife engine.
pub struct Hashlife {
    pub cache: HashlifeCache,
    pub root: usize,
    pub generation: u64,
    pub origin_x: i64,
    pub origin_y: i64,
}

impl Hashlife {
    /// Level of the current root.
    pub open spec fn root_level(self) -> int {
        node_level(self.cache.nodes@, self.root as int)
    }

    /// Engine invariant: a well-formed cache, a branch root of capped
    /// level, and the root square centred on the world point `(8, 8)`.
    pub open spec fn wf(self) -> bool {
        &&& self.cache.wf()
        &&& (self.root as int) < self.cache.len()
        &&& 4 <= self.root_level() <= 60
        &&& self.origin_x == 8 - level_size(self.root_level() - 1)
        &&& self.origin_y == 8 - level_size(self.root_level() - 1)
    }

    /// The set of live world cells.
    pub open spec fn ucells(self) -> Set<(int, int)> {
        Set::new(
            |p: (int, int)|
                node_cells(
                    self.cache.nodes@,
                    self.root as int,
                    p.0 - self.origin_x,
                    p.1 - self.origin_y,
                ),
        )
    }

    /// Whether a world coordinate lies inside the root square.
    pub open spec fn fits(self, x: int, y: int) -> bool {
        &&& self.origin_x <= x < self.origin_x + level_size(self.root_level())
        &&& self.origin_y <= y < self.origin_y + level_size(self.root_level())
    }

    /// A fresh, empty universe of a 16x16 root.
    pub fn new() -> (r: Self)
        ensures
            r.wf(),
            r.ucells() =~= Set::<(int, int)>::empty(),
            r.generation == 0,
    {
        let mut cache = HashlifeCache::new();
        let root = cache.empty_node(4);
        let r = Hashlife { cache, root, generation: 0, origin_x: 0, origin_y: 0 };
        proof {
            vstd::arithmetic::power2::lemma2_to64();
            lemma_zero_pop_no_cells(r.cache.nodes@, r.root as int);
            assert(r.ucells() =~= Set::<(int, int)>::empty());
        }
        r
    }

    /// Reads a cell of a node, descending by halving.
    fn recursive_get(&self, node: usize, size: u64, x: u64, y: u64) -> (r: bool)
        requires
            self.cache.wf(),
            (node as int) < self.cache.len(),
            size as int == level_size(node_level(self.cache.nodes@, node as int)),
            x < size,
            y < size,
        ensures
            r == node_cells(self.cache.nodes@, node as int, x as int, y as int),
        decreases node_level(self.cache.nodes@, node as int),
    {
        let nd = self.nodes_at(node);
        if nd.population == 0 {
            proof {
                assert(wf_node_at(self.cache.nodes@, node as int));
                lemma_zero_pop_no_cells(self.cache.nodes@, node as int);
            }
            return false;
        }
        match nd.data {
            NodeData::Leaf(bits) => {
                proof {
                    vstd::arithmetic::power2::lemma2_to64();
                    assert(size == 8);
                }
                let index: u64 = y * 8 + x;
                (bits >> index) & 1u64 == 1u64
            },
            NodeData::Branch { nw, ne, sw, se, level } => {
                proof {
                    assert(wf_node_at(self.cache.nodes@, node as int));
                    vstd::arithmetic::power2::lemma_pow2_unfold(level as nat);
                    vstd::arithmetic::power2::lemma_pow2_pos((level - 1) as nat);
                }
                let half: u64 = size / 2;
                if x < half {
                    if y < half {
                        self.recursive_get(nw, half, x, y)
                    } else {
                        self.recursive_get(sw, half, x, y - half)
                    }
                } else {
                    if y < half {
                        self.recursive_get(ne, half, x - half, y)
                    } else {
                        self.recursive_get(se, half, x - half, y - half)
                    }
                }
            },
        }
    }

    /// Empties the universe; the node cache is retained.
    pub fn clear(&mut self)
        requires
            old(self).wf(),
        ensures
            final(self).wf(),
            final(self).ucells() =~= Set::<(int, int)>::empty(),
            final(self).generation == 0,
    {
        let root = self.cache.empty_node(4);
        self.root = root;
        self.origin_x = 0;
        self.origin_y = 0;
        self.generation = 0;
        proof {
            vstd::arithmetic::power2::lemma2_to64();
            lemma_zero_pop_no_cells(self.cache.nodes@, root as int);
            assert(final(self).ucells() =~= Set::<(int, int)>::empty());
        }
    }

    /// Every live cell has machine-representable coordinates.
    pub proof fn lemma_cells_bounded(self)
        requires
            self.wf(),
        ensures
            forall|q: (int, int)|
                self.ucells().contains(q) ==> i64::MIN <= q.0 <= i64::MAX && i64::MIN <= q.1
                    <= i64::MAX,
    {
        assert forall|q: (int, int)|
            self.ucells().contains(q) implies i64::MIN <= q.0 <= i64::MAX && i64::MIN <= q.1
            <= i64::MAX by {
            lemma_cells_in_bounds(
                self.cache.nodes@,
                self.root as int,
                q.0 - self.origin_x,
                q.1 - self.origin_y,
            );
            vstd::arithmetic::power2::lemma2_to64();
            vstd::arithmetic::power2::lemma2_to64_rest();
            if self.root_level() < 61 {
                vstd::arithmetic::power2::lemma_pow2_strictly_increases(
                    self.root_level() as nat,
                    61,
                );
            }
            if self.root_level() - 1 < 61 {
                vstd::arithmetic::power2::lemma_pow2_strictly_increases(
                    (self.root_level() - 1) as nat,
                    61,
                );
            }
        }
    }

    /// Number of live cells: the size of the live set.  The root node's
    /// stored population field carries the same count through the
    /// quadtree structure.
    pub fn population(&self) -> (r: u64)
        requires
            self.wf(),
        ensures
            self.ucells().finite(),
            r == self.ucells().len(),
    {
        let out = self.export();
        proof {
            self.lemma_cells_bounded();
            crate::laws::lemma_listing_counts(self.ucells(), out@);
        }
        out.len() as u64
    }

    /// Live-cell count of one quadrant of a child node (zero for a leaf);    /// Live-cell count of one quadrant of a child node (zero for a leaf);
    /// quadrants are numbered NW, NE, SW, SE.
    pub fn get_sub_pop(&self, node: usize, quadrant: u8) -> (r: u128)
        requires
            self.cache.wf(),
            (node as int) < self.cache.len(),
            quadrant < 4,
        ensures
            r as int == sub_pop(self.cache.nodes@, node as int, quadrant as int),
            r as int <= vstd::arithmetic::power2::pow2(120),
    {
        proof {
            assert(wf_node_at(self.cache.nodes@, node as int));
        }
        match self.nodes_at(node).data {
            NodeData::Branch { nw, ne, sw, se, .. } => {
                let child: usize = if quadrant == 0 {
                    nw
                } else if quadrant == 1 {
                    ne
                } else if quadrant == 2 {
                    sw
                } else {
                    se
                };
                proof {
                    assert(wf_node_at(self.cache.nodes@, child as int));
                    crate::node::lemma_pop_fits(self.cache.nodes@, child as int);
                }
                self.nodes_at(child).population
            },
            NodeData::Leaf(_) => 0,
        }
    }

    /// Whether every live cell lies in the centred half of the root: the
    /// condition under which a warp step loses nothing at the boundary.
    pub fn is_padded(&self) -> (r: bool)
        requires
            self.wf(),
        ensures
            r == spec_padded(*self),
    {
        match self.nodes_at(self.root).data {
            NodeData::Branch { nw, ne, sw, se, .. } => {
                proof {
                    assert(wf_node_at(self.cache.nodes@, self.root as int));
                    crate::cache::lemma_four_pops_fit();
                }
                let inner = self.get_sub_pop(nw, 3) + self.get_sub_pop(ne, 2) + self.get_sub_pop(
                    sw,
                    1,
                ) + self.get_sub_pop(se, 0);
                let p: u128 = self.nodes_at(self.root).population;
                p == inner
            },
            NodeData::Leaf(_) => {
                proof {
                    assert(false);
                }
                false
            },
        }
    }

    /// Advances the universe by exactly `steps` generations, taking the
    /// largest warp jumps the remaining count allows, and returns the
    /// number of generations taken.
    pub fn step(&mut self, steps: u64) -> (r: u64)
        requires
            old(self).wf(),
            old(self).generation + steps <= u64::MAX,
        ensures
            final(self).wf(),
            r == steps,
            final(self).generation == old(self).generation + steps,
            steps == 0 ==> final(self).ucells() =~= old(self).ucells(),
    {
        if steps == 0 {
            return 0;
        }
        let ghost g0 = self.generation;
        let mut remaining: u64 = steps;
        while remaining > 0
            invariant
                self.wf(),
                remaining <= steps,
                self.generation == g0 + (steps - remaining),
                g0 + steps <= u64::MAX,
            decreases remaining,
        {
            let mut t: usize = 0;
            while t < 60
                invariant
                    0 <= t <= 60,
                    self.wf(),
                    self.generation == g0 + (steps - remaining),
                    t >= 1 ==> self.root_level() >= 5,
                decreases 60 - t,
            {
                let lv = self.nodes_at(self.root).level();
                if lv < 5 || !self.is_padded() {
                    if lv < 60 {
                        self.expand();
                    }
                }
                t = t + 1;
            }
            let lv2 = self.nodes_at(self.root).level();
            if lv2 < 60 {
                // One level beyond the padding condition: the live region
                // then sits in the centred quarter, so nothing the coming
                // evolution emits can leave the centred result window.
                self.expand();
            }
            let level = self.nodes_at(self.root).level();
            proof {
                vstd::arithmetic::power2::lemma2_to64();
                vstd::arithmetic::power2::lemma2_to64_rest();
                vstd::bits::lemma_u64_pow2_no_overflow((level - 2) as nat);
                vstd::bits::lemma_u64_shl_is_mul(1u64, (level - 2) as u64);
                if ((level - 2) as nat) < 62 {
                    vstd::arithmetic::power2::lemma_pow2_strictly_increases((level - 2) as nat, 62);
                }
                vstd::arithmetic::power2::lemma_pow2_unfold((level - 1) as nat);
                vstd::arithmetic::power2::lemma_pow2_pos((level - 2) as nat);
            }
            let max_jump: u64 = 1u64 << ((level - 2) as u64);
            let taken: u64;
            if remaining >= max_jump {
                let nr = self.cache.evolve(self.root);
                self.root = nr;
                taken = max_jump;
            } else {
                let nr = self.cache.evolve_1(self.root);
                self.root = nr;
                taken = 1;
            }
            let sh: i64 = max_jump as i64;
            self.origin_x = self.origin_x + sh;
            self.origin_y = self.origin_y + sh;
            remaining = remaining - taken;
            self.generation = self.generation + taken;
        }
        steps
    }

    /// Writes many cells to one value, one write per coordinate.
    pub fn set_cells(&mut self, coords: &Vec<(i64, i64)>, alive: bool)
        requires
            old(self).wf(),
        ensures
            final(self).wf(),
            final(self).generation == old(self).generation,
            ((forall|k: int| 0 <= k < coords@.len() ==> in_friendly_range(coords@[k])) && alive)
                ==> final(self).ucells() =~= old(self).ucells().union(coord_set(coords@)),
            ((forall|k: int| 0 <= k < coords@.len() ==> in_friendly_range(coords@[k])) && !alive)
                ==> final(self).ucells() =~= old(self).ucells().difference(coord_set(coords@)),
            alive ==> forall|p: (int, int)|
                final(self).ucells().contains(p) ==> (old(self).ucells().contains(p)
                    || #[trigger] coord_set(coords@).contains(p)),
    {
        let ghost pre = *self;
        let mut k: usize = 0;
        while k < coords.len()
            invariant
                self.wf(),
                self.generation == pre.generation,
                0 <= k <= coords@.len(),
                ((forall|m: int| 0 <= m < coords@.len() ==> in_friendly_range(coords@[m])) && alive)
                    ==> self.ucells() =~= pre.ucells().union(coord_set(coords@.take(k as int))),
                ((forall|m: int| 0 <= m < coords@.len() ==> in_friendly_range(coords@[m]))
                    && !alive) ==> self.ucells() =~= pre.ucells().difference(
                    coord_set(coords@.take(k as int)),
                ),
                alive ==> forall|p: (int, int)|
                    self.ucells().contains(p) ==> (pre.ucells().contains(p)
                        || #[trigger] coord_set(coords@.take(k as int)).contains(p)),
            decreases coords@.len() - k,
        {
            let (x, y) = coords[k];
            let ghost before = *self;
            self.set_cell(x, y, alive);
            proof {
                if alive {
                    lemma_coord_set_take(coords@, k as int);
                    assert forall|p: (int, int)|
                        self.ucells().contains(p) implies (pre.ucells().contains(p)
                        || #[trigger] coord_set(coords@.take(k as int + 1)).contains(p)) by {
                        if !pre.ucells().contains(p) {
                            if before.ucells().contains(p) {
                                assert(coord_set(coords@.take(k as int)).contains(p));
                            } else {
                                assert(p == (x as int, y as int) || !self.ucells().contains(p));
                            }
                        }
                    }
                }
                if forall|m: int| 0 <= m < coords@.len() ==> in_friendly_range(coords@[m]) {
                    assert(in_friendly_range(coords@[k as int]));
                    lemma_coord_set_take(coords@, k as int);
                    if alive {
                        assert(self.ucells() =~= before.ucells().insert((x as int, y as int)));
                        assert(self.ucells() =~= pre.ucells().union(
                            coord_set(coords@.take(k as int + 1)),
                        ));
                    } else {
                        assert(self.ucells() =~= before.ucells().remove((x as int, y as int)));
                        assert(self.ucells() =~= pre.ucells().difference(
                            coord_set(coords@.take(k as int + 1)),
                        ));
                    }
                }
            }
            k = k + 1;
        }
        proof {
            assert(coords@.take(coords@.len() as int) =~= coords@);
        }
    }

    /// Replaces the whole universe by the given live set.
    pub fn import(&mut self, alive_cells: &Vec<(i64, i64)>)
        requires
            old(self).wf(),
        ensures
            final(self).wf(),
            final(self).generation == 0,
            forall|p: (int, int)|
                final(self).ucells().contains(p) ==> #[trigger] coord_set(
                    alive_cells@,
                ).contains(p),
            (forall|k: int| 0 <= k < alive_cells@.len() ==> in_friendly_range(alive_cells@[k]))
                ==> final(self).ucells() =~= coord_set(alive_cells@),
    {
        self.clear();
        let ghost cleared = *self;
        self.set_cells(alive_cells, true);
        proof {
            if forall|k: int| 0 <= k < alive_cells@.len() ==> in_friendly_range(alive_cells@[k]) {
                assert(cleared.ucells().union(coord_set(alive_cells@)) =~= coord_set(
                    alive_cells@,
                ));
            }
        }
    }

    /// Appends every live cell of a node, offset by the node's world
    /// position `(x, y)`, to the list; cells come out without duplicates.
    #[verifier::rlimit(100)]
    fn recursive_export(
        &self,
        node: usize,
        x: i64,
        y: i64,
        size: u64,
        list: &mut Vec<(i64, i64)>,
    )
        requires
            self.cache.wf(),
            (node as int) < self.cache.len(),
            size as int == level_size(node_level(self.cache.nodes@, node as int)),
            -0x4000_0000_0000_0000 <= x,
            x + size <= 0x4000_0000_0000_0000,
            -0x4000_0000_0000_0000 <= y,
            y + size <= 0x4000_0000_0000_0000,
            crate::node::no_dups(old(list)@),
            forall|k: int|
                0 <= k < old(list)@.len() ==> !in_square(#[trigger] old(list)@[k], x as int, y as int, size as int),
        ensures
            crate::node::no_dups(final(list)@),
            forall|p: (i64, i64)|
                final(list)@.contains(p) <==> (old(list)@.contains(p) || node_cells(
                    self.cache.nodes@,
                    node as int,
                    p.0 - x,
                    p.1 - y,
                )),
            forall|k: int|
                0 <= k < final(list)@.len() ==> (old(list)@.contains(#[trigger] final(list)@[k])
                    || in_square(final(list)@[k], x as int, y as int, size as int)),
        decreases node_level(self.cache.nodes@, node as int),
    {
        let nd = self.nodes_at(node);
        if nd.population == 0 {
            proof {
                assert(wf_node_at(self.cache.nodes@, node as int));
                lemma_zero_pop_no_cells(self.cache.nodes@, node as int);
            }
            return ;
        }
        match nd.data {
            NodeData::Leaf(bits) => {
                proof {
                    vstd::arithmetic::power2::lemma2_to64();
                    assert(size == 8);
                }
                let ghost entry = list@;
                let mut j: usize = 0;
                while j < 64
                    invariant
                        0 <= j <= 64,
                        -0x4000_0000_0000_0000 <= x,
                        x + 8 <= 0x4000_0000_0000_0000,
                        -0x4000_0000_0000_0000 <= y,
                        y + 8 <= 0x4000_0000_0000_0000,
                        list@ =~= entry + leaf_seq(bits, x, y, j as int),
                    decreases 64 - j,
                {
                    let jv = j as u64;
                    if (bits >> jv) & 1u64 == 1u64 {
                        let px: i64 = x + ((j % 8) as i64);
                        let py: i64 = y + ((j / 8) as i64);
                        let ghost before = list@;
                        list.push((px, py));
                        proof {
                            let ji = j as int;
                            assert(crate::life::bit64(bits, ji));
                            assert(px == ((x + ji % 8) as i64) && py == ((y + ji / 8) as i64));
                            assert(leaf_seq(bits, x, y, ji + 1) =~= leaf_seq(bits, x, y, ji).push(
                                (px, py),
                            ));
                            assert(list@ =~= before.push((px, py)));
                            assert(list@ =~= entry + leaf_seq(bits, x, y, ji + 1));
                        }
                    } else {
                        proof {
                            let ji = j as int;
                            assert(!crate::life::bit64(bits, ji));
                            assert(leaf_seq(bits, x, y, ji + 1) =~= leaf_seq(bits, x, y, ji));
                        }
                    }
                    j = j + 1;
                }
                proof {
                    let nodes = self.cache.nodes@;
                    let ls = leaf_seq(bits, x, y, 64);
                    lemma_leaf_seq_props(bits, x, y, 64);
                    assert forall|p: (i64, i64)|
                        list@.contains(p) == (entry.contains(p) || node_cells(
                            nodes,
                            node as int,
                            p.0 - x,
                            p.1 - y,
                        )) by {
                        lemma_concat_contains(entry, ls, p);
                        if ls.contains(p) {
                            assert(node_cells(nodes, node as int, p.0 - x, p.1 - y));
                        }
                        if node_cells(nodes, node as int, p.0 - x, p.1 - y) {
                            assert(0 <= (p.1 - y) * 8 + (p.0 - x) < 64);
                            assert(ls.contains(p));
                        }
                    }
                    assert forall|i1: int, i2: int|
                        0 <= i1 < i2 < list@.len() implies list@[i1] != list@[i2] by {
                        if i2 < entry.len() {
                        } else if i1 >= entry.len() {
                            assert(list@[i1] == ls[i1 - entry.len()]);
                            assert(list@[i2] == ls[i2 - entry.len()]);
                        } else {
                            assert(list@[i1] == entry[i1]);
                            assert(list@[i2] == ls[i2 - entry.len()]);
                            assert(!in_square(entry[i1], x as int, y as int, 8));
                            assert(in_square(ls[i2 - entry.len()], x as int, y as int, 8));
                        }
                    }
                    assert forall|k: int|
                        0 <= k < list@.len() implies (entry.contains(#[trigger] list@[k])
                            || in_square(list@[k], x as int, y as int, 8)) by {
                        if k < entry.len() {
                            assert(list@[k] == entry[k]);
                            assert(entry.contains(list@[k]));
                        } else {
                            assert(list@[k] == ls[k - entry.len()]);
                        }
                    }
                }
            },
            NodeData::Branch { nw, ne, sw, se, level } => {
                proof {
                    assert(wf_node_at(self.cache.nodes@, node as int));
                    vstd::arithmetic::power2::lemma_pow2_unfold(level as nat);
                    vstd::arithmetic::power2::lemma_pow2_pos((level - 1) as nat);
                }
                let half: u64 = size / 2;
                let hx: i64 = x + (half as i64);
                let hy: i64 = y + (half as i64);
                let ghost l0 = list@;
                let ghost hf = half as int;
                proof {
                    assert(size as int == 2 * hf);
                    assert(forall|k: int|
                        0 <= k < l0.len() ==> !in_square(#[trigger] l0[k], x as int, y as int, 2 * hf));
                }
                self.recursive_export(nw, x, y, half, list);
                let ghost l1 = list@;
                proof {
                    assert forall|k: int|
                        0 <= k < l1.len() implies !in_square(#[trigger] l1[k], hx as int, y as int, hf) by {
                        lemma_not_in_outer(l0, l1[k], x as int, y as int, hf);
                    }
                }
                self.recursive_export(ne, hx, y, half, list);
                let ghost l2 = list@;
                proof {
                    assert forall|k: int|
                        0 <= k < l2.len() implies !in_square(#[trigger] l2[k], x as int, hy as int, hf) by {
                        if l1.contains(l2[k]) {
                            let m = choose|m: int| 0 <= m < l1.len() && l1[m] == l2[k];
                            lemma_not_in_outer(l0, l1[m], x as int, y as int, hf);
                        }
                    }
                }
                self.recursive_export(sw, x, hy, half, list);
                let ghost l3 = list@;
                proof {
                    assert forall|k: int|
                        0 <= k < l3.len() implies !in_square(#[trigger] l3[k], hx as int, hy as int, hf) by {
                        if l2.contains(l3[k]) {
                            let m2 = choose|m: int| 0 <= m < l2.len() && l2[m] == l3[k];
                            if l1.contains(l2[m2]) {
                                let m1 = choose|m: int| 0 <= m < l1.len() && l1[m] == l2[m2];
                                lemma_not_in_outer(l0, l1[m1], x as int, y as int, hf);
                            }
                        }
                    }
                }
                self.recursive_export(se, hx, hy, half, list);
                proof {
                    let nodes = self.cache.nodes@;
                    let hf = half as int;
                    assert forall|p: (i64, i64)|
                        list@.contains(p) <==> (l0.contains(p) || node_cells(
                            nodes,
                            node as int,
                            p.0 - x,
                            p.1 - y,
                        )) by {
                        assert(node_cells(nodes, node as int, p.0 - x, p.1 - y)
                            == crate::node::quad_cells(
                            nodes,
                            nw as int,
                            ne as int,
                            sw as int,
                            se as int,
                            hf,
                            p.0 - x,
                            p.1 - y,
                        ));
                        if node_cells(nodes, nw as int, p.0 - x, p.1 - y) {
                            lemma_cells_in_bounds(nodes, nw as int, p.0 - x, p.1 - y);
                        }
                        if node_cells(nodes, ne as int, p.0 - hx, p.1 - y) {
                            lemma_cells_in_bounds(nodes, ne as int, p.0 - hx, p.1 - y);
                        }
                        if node_cells(nodes, sw as int, p.0 - x, p.1 - hy) {
                            lemma_cells_in_bounds(nodes, sw as int, p.0 - x, p.1 - hy);
                        }
                        if node_cells(nodes, se as int, p.0 - hx, p.1 - hy) {
                            lemma_cells_in_bounds(nodes, se as int, p.0 - hx, p.1 - hy);
                        }
                    }
                }
            },
        }
    }

    /// Lists every live cell, in no particular order and without
    /// duplicates.
    pub fn export(&self) -> (r: Vec<(i64, i64)>)
        requires
            self.wf(),
        ensures
            crate::node::no_dups(r@),
            forall|p: (i64, i64)| r@.contains(p) <==> self.ucells().contains((p.0 as int, p.1 as int)),
    {
        let mut list: Vec<(i64, i64)> = Vec::new();
        let size = self.root_size();
        proof {
            vstd::arithmetic::power2::lemma2_to64();
            vstd::arithmetic::power2::lemma2_to64_rest();
            if self.root_level() < 61 {
                vstd::arithmetic::power2::lemma_pow2_strictly_increases(
                    self.root_level() as nat,
                    61,
                );
            }
        }
        self.recursive_export(self.root, self.origin_x, self.origin_y, size, &mut list);
        list
    }

    /// A copy of slab entry `i`.
    fn nodes_at(&self, i: usize) -> (r: Node)
        requires
            (i as int) < self.cache.len(),
        ensures
            r == self.cache.nodes@[i as int],
    {
        self.cache.nodes[i]
    }

    /// The side length of the root square.
    fn root_size(&self) -> (s: u64)
        requires
            self.wf(),
        ensures
            s as int == level_size(self.root_level()),
            8 <= s,
    {
        let level = self.nodes_at(self.root).level();
        proof {
            vstd::arithmetic::power2::lemma2_to64();
            vstd::bits::lemma_u64_pow2_no_overflow(level as nat);
            vstd::bits::lemma_u64_shl_is_mul(1u64, level as u64);
            if self.root_level() > 3 {
                vstd::arithmetic::power2::lemma_pow2_strictly_increases(3, level as nat);
            }
        }
        1u64 << (level as u64)
    }

    /// Side length of half the root square, as an offset.
    fn half_size_i64(&self) -> (r: i64)
        requires
            self.wf(),
        ensures
            r as int == level_size(self.root_level() - 1),
            r >= 8,
    {
        let level = self.nodes_at(self.root).level();
        proof {
            vstd::arithmetic::power2::lemma2_to64();
            vstd::arithmetic::power2::lemma2_to64_rest();
            vstd::bits::lemma_u64_pow2_no_overflow((level - 1) as nat);
            vstd::bits::lemma_u64_shl_is_mul(1u64, (level - 1) as u64);
            if self.root_level() - 1 > 3 {
                vstd::arithmetic::power2::lemma_pow2_strictly_increases(3, (level - 1) as nat);
            }
            if (self.root_level() - 1) < 62 {
                vstd::arithmetic::power2::lemma_pow2_strictly_increases(
                    (level - 1) as nat,
                    62,
                );
            }
        }
        let h: u64 = 1u64 << ((level - 1) as u64);
        h as i64
    }

    /// Doubles the universe, keeping the old root as the centre of the new
    /// one; world coordinates of live cells do not move.
    #[verifier::rlimit(100)]
    fn expand(&mut self)
        requires
            old(self).wf(),
            old(self).root_level() <= 59,
        ensures
            final(self).wf(),
            final(self).root_level() == old(self).root_level() + 1,
            final(self).ucells() =~= old(self).ucells(),
            final(self).generation == old(self).generation,
    {
        let ghost pre = *self;
        let shift_half: i64 = self.half_size_i64();
        let nd = self.nodes_at(self.root);
        match nd.data {
            NodeData::Branch { nw, ne, sw, se, level } => {
                proof {
                    assert(wf_node_at(self.cache.nodes@, self.root as int));
                }
                let empty = self.cache.empty_node(level - 1);
                let ghost s0 = self.cache;
                let new_nw = self.cache.join(empty, empty, empty, nw);
                let new_ne = self.cache.join(empty, empty, ne, empty);
                let new_sw = self.cache.join(empty, sw, empty, empty);
                let new_se = self.cache.join(se, empty, empty, empty);
                let ghost s4 = self.cache;
                let new_root = self.cache.join(new_nw, new_ne, new_sw, new_se);
                self.root = new_root;
                proof {
                    vstd::arithmetic::power2::lemma2_to64();
                    vstd::arithmetic::power2::lemma2_to64_rest();
                    vstd::arithmetic::power2::lemma_pow2_unfold(level as nat);
                    vstd::arithmetic::power2::lemma_pow2_unfold((level + 1) as nat);
                    if (level as nat) < 62 {
                        vstd::arithmetic::power2::lemma_pow2_strictly_increases(level as nat, 62);
                    }
                }
                self.origin_x = self.origin_x - shift_half;
                self.origin_y = self.origin_y - shift_half;
                proof {
                    let a = pre.cache.nodes@;
                    let b = self.cache.nodes@;
                    let h = level_size(level as int - 1);
                    let hh = level_size(level as int);
                    assert(hh == 2 * h);
                    crate::node::lemma_node_prefix(s0.nodes@, b, empty as int);
                    crate::node::lemma_expand_cells(
                        b,
                        new_root,
                        new_nw,
                        new_ne,
                        new_sw,
                        new_se,
                        empty,
                        nw,
                        ne,
                        sw,
                        se,
                        level,
                    );
                    crate::node::lemma_node_prefix(a, b, nw as int);
                    crate::node::lemma_node_prefix(a, b, ne as int);
                    crate::node::lemma_node_prefix(a, b, sw as int);
                    crate::node::lemma_node_prefix(a, b, se as int);
                    crate::node::lemma_node_prefix(a, b, pre.root as int);
                    assert(wf_node_at(a, pre.root as int));
                    assert forall|p: (int, int)|
                        final(self).ucells().contains(p) == pre.ucells().contains(p) by {
                        let xx = p.0 - final(self).origin_x;
                        let yy = p.1 - final(self).origin_y;
                        assert(node_cells(b, new_root as int, xx, yy) == crate::node::quad_cells(
                            b,
                            nw as int,
                            ne as int,
                            sw as int,
                            se as int,
                            h,
                            xx - h,
                            yy - h,
                        ));
                        assert(node_cells(a, pre.root as int, xx - h, yy - h)
                            == crate::node::quad_cells(
                            a,
                            nw as int,
                            ne as int,
                            sw as int,
                            se as int,
                            h,
                            xx - h,
                            yy - h,
                        ));
                        assert(node_cells(b, nw as int, xx - h, yy - h) == node_cells(
                            a,
                            nw as int,
                            xx - h,
                            yy - h,
                        ));
                        assert(node_cells(b, sw as int, xx - h, yy - h - h) == node_cells(
                            a,
                            sw as int,
                            xx - h,
                            yy - h - h,
                        ));
                        assert(node_cells(b, ne as int, xx - h - h, yy - h) == node_cells(
                            a,
                            ne as int,
                            xx - h - h,
                            yy - h,
                        ));
                        assert(node_cells(b, se as int, xx - h - h, yy - h - h) == node_cells(
                            a,
                            se as int,
                            xx - h - h,
                            yy - h - h,
                        ));
                    }
                }
            },
            NodeData::Leaf(_) => {
                proof {
                    assert(false);
                }
            },
        }
    }

    /// Rewrites one cell of a node, rebuilding the spine of the quadtree
    /// and sharing every untouched subtree.
    #[verifier::rlimit(100)]
    fn recursive_set(&mut self, node: usize, size: u64, x: u64, y: u64, alive: bool) -> (r: usize)
        requires
            old(self).cache.wf(),
            (node as int) < old(self).cache.len(),
            size as int == level_size(node_level(old(self).cache.nodes@, node as int)),
            node_level(old(self).cache.nodes@, node as int) <= 60,
            x < size,
            y < size,
        ensures
            final(self).cache.wf(),
            old(self).cache.len() <= final(self).cache.len(),
            forall|j: int|
                0 <= j < old(self).cache.len() ==> final(self).cache.nodes@[j] == old(
                    self,
                ).cache.nodes@[j],
            final(self).cache.empty_nodes@ == old(self).cache.empty_nodes@,
            (r as int) < final(self).cache.len(),
            node_level(final(self).cache.nodes@, r as int) == node_level(
                old(self).cache.nodes@,
                node as int,
            ),
            forall|a: int, c: int|
                node_cells(final(self).cache.nodes@, r as int, a, c) == if a == x && c == y {
                    alive
                } else {
                    node_cells(old(self).cache.nodes@, node as int, a, c)
                },
            final(self).root == old(self).root,
            final(self).origin_x == old(self).origin_x,
            final(self).origin_y == old(self).origin_y,
            final(self).generation == old(self).generation,
        decreases node_level(old(self).cache.nodes@, node as int),
    {
        let ghost pre = *self;
        let nd = self.nodes_at(node);
        match nd.data {
            NodeData::Leaf(bits) => {
                proof {
                    vstd::arithmetic::power2::lemma2_to64();
                    assert(size == 8);
                }
                let index: u64 = y * 8 + x;
                let newbits: u64 = if alive {
                    bits | (1u64 << index)
                } else {
                    bits & !(1u64 << index)
                };
                let r = self.cache.get_node(NodeData::Leaf(newbits));
                proof {
                    let b = self.cache.nodes@;
                    assert forall|a: int, c: int|
                        node_cells(b, r as int, a, c) == (if a == x && c == y {
                            alive
                        } else {
                            node_cells(pre.cache.nodes@, node as int, a, c)
                        }) by {
                        if 0 <= a < 8 && 0 <= c < 8 {
                            if alive {
                                crate::chunk::lemma_set_bit(bits, index, (c * 8 + a) as u64);
                            } else {
                                crate::chunk::lemma_clear_bit(bits, index, (c * 8 + a) as u64);
                            }
                            assert(((c * 8 + a) as u64) == index <==> (a == x && c == y));
                        }
                    }
                }
                r
            },
            NodeData::Branch { nw, ne, sw, se, level } => {
                proof {
                    assert(wf_node_at(self.cache.nodes@, node as int));
                    vstd::arithmetic::power2::lemma_pow2_unfold(level as nat);
                    vstd::arithmetic::power2::lemma_pow2_pos((level - 1) as nat);
                }
                let half: u64 = size / 2;
                let (q, qx, qy): (usize, u64, u64) = if x < half {
                    if y < half {
                        (nw, x, y)
                    } else {
                        (sw, x, y - half)
                    }
                } else {
                    if y < half {
                        (ne, x - half, y)
                    } else {
                        (se, x - half, y - half)
                    }
                };
                let nq = self.recursive_set(q, half, qx, qy, alive);
                let ghost mid = self.cache;
                let r = if x < half {
                    if y < half {
                        self.cache.join(nq, ne, sw, se)
                    } else {
                        self.cache.join(nw, ne, nq, se)
                    }
                } else {
                    if y < half {
                        self.cache.join(nw, nq, sw, se)
                    } else {
                        self.cache.join(nw, ne, sw, nq)
                    }
                };
                proof {
                    let a0 = pre.cache.nodes@;
                    let m = mid.nodes@;
                    let b = self.cache.nodes@;
                    let hf = half as int;
                    crate::node::lemma_node_prefix(a0, m, nw as int);
                    crate::node::lemma_node_prefix(a0, m, ne as int);
                    crate::node::lemma_node_prefix(a0, m, sw as int);
                    crate::node::lemma_node_prefix(a0, m, se as int);
                    assert forall|a: int, c: int|
                        node_cells(b, r as int, a, c) == (if a == x && c == y {
                            alive
                        } else {
                            node_cells(a0, node as int, a, c)
                        }) by {
                        assert(node_cells(a0, node as int, a, c) == crate::node::quad_cells(
                            a0,
                            nw as int,
                            ne as int,
                            sw as int,
                            se as int,
                            hf,
                            a,
                            c,
                        ));
                        if x < half {
                            if y < half {
                                assert(node_cells(b, r as int, a, c) == crate::node::quad_cells(
                                    m,
                                    nq as int,
                                    ne as int,
                                    sw as int,
                                    se as int,
                                    hf,
                                    a,
                                    c,
                                ));
                            } else {
                                assert(node_cells(b, r as int, a, c) == crate::node::quad_cells(
                                    m,
                                    nw as int,
                                    ne as int,
                                    nq as int,
                                    se as int,
                                    hf,
                                    a,
                                    c,
                                ));
                            }
                        } else {
                            if y < half {
                                assert(node_cells(b, r as int, a, c) == crate::node::quad_cells(
                                    m,
                                    nw as int,
                                    nq as int,
                                    sw as int,
                                    se as int,
                                    hf,
                                    a,
                                    c,
                                ));
                            } else {
                                assert(node_cells(b, r as int, a, c) == crate::node::quad_cells(
                                    m,
                                    nw as int,
                                    ne as int,
                                    sw as int,
                                    nq as int,
                                    hf,
                                    a,
                                    c,
                                ));
                            }
                        }
                    }
                }
                r
            },
        }
    }

    /// Whether a world coordinate lies inside the root square, computed.
    fn fits_now(&self, x: i64, y: i64) -> (r: bool)
        requires
            self.wf(),
        ensures
            r == self.fits(x as int, y as int),
    {
        let size = self.root_size();
        let rel_x: i128 = (x as i128) - (self.origin_x as i128);
        let rel_y: i128 = (y as i128) - (self.origin_y as i128);
        0 <= rel_x && rel_x < size as i128 && 0 <= rel_y && rel_y < size as i128
    }

    /// Expands the universe until the given coordinate fits, up to a
    /// bounded number of doublings; any coordinate within `2^23 - 8`
    /// cells of the origin is guaranteed to fit afterwards.
    fn expand_to_fit(&mut self, x: i64, y: i64)
        requires
            old(self).wf(),
        ensures
            final(self).wf(),
            final(self).ucells() =~= old(self).ucells(),
            final(self).generation == old(self).generation,
            old(self).root_level() <= final(self).root_level(),
            old(self).fits(x as int, y as int) ==> final(self).fits(x as int, y as int),
            (-0x7FFFF8 <= x <= 0x7FFFF8 && -0x7FFFF8 <= y <= 0x7FFFF8) ==> final(self).fits(
                x as int,
                y as int,
            ),
    {
        let ghost pre = *self;
        let mut t: usize = 0;
        while t < 20
            invariant
                0 <= t <= 20,
                self.wf(),
                self.ucells() =~= pre.ucells(),
                self.generation == pre.generation,
                pre.root_level() <= self.root_level(),
                self.fits(x as int, y as int) || self.root_level() == pre.root_level() + t
                    || self.root_level() == 60,
                pre.fits(x as int, y as int) ==> self.fits(x as int, y as int),
            decreases 20 - t,
        {
            if !self.fits_now(x, y) {
                let lv = self.nodes_at(self.root).level();
                if lv < 60 {
                    let ghost at = *self;
                    self.expand();
                    proof {
                        lemma_fits_grows(at, *self, x as int, y as int);
                    }
                }
            }
            t = t + 1;
        }
        proof {
            if -0x7FFFF8 <= x <= 0x7FFFF8 && -0x7FFFF8 <= y <= 0x7FFFF8 {
                if !self.fits(x as int, y as int) {
                    assert(self.root_level() >= 24);
                    lemma_wide_fits(*self, x as int, y as int);
                }
            }
        }
    }

    /// Writes one cell of the universe.  The write lands whenever the
    /// coordinate fits the (expanded) root square, which it always does
    /// within `2^23 - 8` cells of the origin; a coordinate too far out to
    /// fit after bounded expansion is dropped.
    pub fn set_cell(&mut self, x: i64, y: i64, alive: bool)
        requires
            old(self).wf(),
        ensures
            final(self).wf(),
            final(self).generation == old(self).generation,
            final(self).fits(x as int, y as int) ==> final(self).ucells() =~= (if alive {
                old(self).ucells().insert((x as int, y as int))
            } else {
                old(self).ucells().remove((x as int, y as int))
            }),
            !final(self).fits(x as int, y as int) ==> final(self).ucells() =~= old(self).ucells(),
            (-0x7FFFF8 <= x <= 0x7FFFF8 && -0x7FFFF8 <= y <= 0x7FFFF8) ==> final(self).fits(
                x as int,
                y as int,
            ),
    {
        let ghost pre = *self;
        self.expand_to_fit(x, y);
        let ghost mid = *self;
        if !self.fits_now(x, y) {
            return ;
        }
        let size = self.root_size();
        let rel_x: u64 = ((x as i128) - (self.origin_x as i128)) as u64;
        let rel_y: u64 = ((y as i128) - (self.origin_y as i128)) as u64;
        let new_root = self.recursive_set(self.root, size, rel_x, rel_y, alive);
        self.root = new_root;
        proof {
            let b = self.cache.nodes@;
            assert forall|p: (int, int)|
                final(self).ucells().contains(p) == (if alive {
                    mid.ucells().insert((x as int, y as int))
                } else {
                    mid.ucells().remove((x as int, y as int))
                }).contains(p) by {
                assert(node_cells(b, new_root as int, p.0 - mid.origin_x, p.1 - mid.origin_y) == (
                if p.0 - mid.origin_x == rel_x && p.1 - mid.origin_y == rel_y {
                    alive
                } else {
                    node_cells(mid.cache.nodes@, mid.root as int, p.0 - mid.origin_x, p.1
                        - mid.origin_y)
                }));
            }
            if alive {
                assert(final(self).ucells() =~= mid.ucells().insert((x as int, y as int)));
            } else {
                assert(final(self).ucells() =~= mid.ucells().remove((x as int, y as int)));
            }
        }
    }

    /// Whether the world cell `(x, y)` is live.
    pub fn get_cell(&self, x: i64, y: i64) -> (r: bool)
        requires
            self.wf(),
        ensures
            r == self.ucells().contains((x as int, y as int)),
    {
        let size = self.root_size();
        let rel_x: i128 = (x as i128) - (self.origin_x as i128);
        let rel_y: i128 = (y as i128) - (self.origin_y as i128);
        if rel_x < 0 || rel_y < 0 || rel_x >= size as i128 || rel_y >= size as i128 {
            proof {
                if node_cells(
                    self.cache.nodes@,
                    self.root as int,
                    x - self.origin_x,
                    y - self.origin_y,
                ) {
                    lemma_cells_in_bounds(
                        self.cache.nodes@,
                        self.root as int,
                        x - self.origin_x,
                        y - self.origin_y,
                    );
                }
            }
            return false;
        }
        self.recursive_get(self.root, size, rel_x as u64, rel_y as u64)
    }
}

} // verus!
