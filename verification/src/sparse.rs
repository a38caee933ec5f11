//! The sparse block engine: an unbounded plane partitioned into 64x64
//! bit-packed tiles held in a spatial hash, with a set of active tile
//! coordinates marking where the next generation may differ.

use vstd::prelude::*;

use std::collections::HashMap;

use crate::chunk::BitChunk;
use crate::life::life_next;

verus! {

broadcast use vstd::std_specs::hash::group_hash_axioms;

/// One past the largest tile coordinate any signed 64-bit cell can have:
/// the tile of a cell `x` is `x / 64`, so tiles run over
/// `[-2^57, 2^57)` and every `i64` cell has a tile in range.
pub const SAFE_COORD: i64 = 0x200_0000_0000_0000;

/// Packs a tile coordinate into one map key.
pub open spec fn enc_coord(c: (i64, i64)) -> u128 {
    (((c.0 as u64) as u128) << 64u128) | ((c.1 as u64) as u128)
}

/// Packing a tile coordinate is injective.
pub proof fn lemma_enc_injective(a: (i64, i64), b: (i64, i64))
    requires
        enc_coord(a) == enc_coord(b),
    ensures
        a == b,
{
    let a0 = a.0 as u64;
    let a1 = a.1 as u64;
    let b0 = b.0 as u64;
    let b1 = b.1 as u64;
    assert(((a0 as u128) << 64u128) | (a1 as u128) == ((b0 as u128) << 64u128) | (b1 as u128)
        ==> a0 == b0 && a1 == b1) by (bit_vector);
    lemma_cast_i64_injective(a.0, b.0);
    lemma_cast_i64_injective(a.1, b.1);
}

/// Two signed words with one unsigned image are equal.
proof fn lemma_cast_i64_injective(x: i64, y: i64)
    by (bit_vector)
    ensures
        x as u64 == y as u64 ==> x == y,
{
}

/// Block entries of a well-formed engine have pairwise distinct
/// coordinates.
pub proof fn lemma_blocks_unique(s: SparseLife)
    requires
        s.wf(),
    ensures
        forall|a: int, b: int|
            0 <= a < b < s.blocks@.len() ==> (#[trigger] s.blocks@[a]).0 != (
            #[trigger] s.blocks@[b]).0,
{
    assert forall|a: int, b: int|
        0 <= a < b < s.blocks@.len() implies (#[trigger] s.blocks@[a]).0 != (
    #[trigger] s.blocks@[b]).0 by {
        assert(s.block_coords()[a] == s.blocks@[a].0);
        assert(s.block_coords()[b] == s.blocks@[b].0);
    }
}

/// The tile of entry list `v` at coordinate `c`, if any.
pub open spec fn find_block(v: Seq<((i64, i64), BitChunk)>, c: (int, int)) -> Option<BitChunk>
    decreases v.len(),
{
    if v.len() == 0 {
        Option::None
    } else if v.last().0.0 == c.0 && v.last().0.1 == c.1 {
        Option::Some(v.last().1)
    } else {
        find_block(v.drop_last(), c)
    }
}

/// The sparse engine.
pub struct SparseLife {
    pub blocks: Vec<((i64, i64), BitChunk)>,
    pub index: HashMap<u128, usize>,
    pub active: Vec<(i64, i64)>,
    pub active_index: HashMap<u128, usize>,
    pub generation: u64,
}

impl SparseLife {
    /// A list of keyed entries, its index map, and the key bound agree.
    pub open spec fn table_ok(
        v: Seq<(i64, i64)>,
        m: Map<u128, usize>,
    ) -> bool {
        &&& forall|i: int, j: int| 0 <= i < j < v.len() ==> v[i] != v[j]
        &&& forall|i: int|
            0 <= i < v.len() ==> m.contains_key(#[trigger] enc_coord(v[i])) && m[enc_coord(v[i])]
                == i
        &&& forall|k: u128|
            m.contains_key(k) ==> (#[trigger] m[k]) < v.len() && enc_coord(v[m[k] as int]) == k
    }

    /// The coordinates of the block entries.
    pub open spec fn block_coords(self) -> Seq<(i64, i64)> {
        self.blocks@.map_values(|e: ((i64, i64), BitChunk)| e.0)
    }

    /// Engine invariant: both tables are consistent, coordinates are in
    /// the safe range, and every block's coordinate is marked active.
    pub open spec fn wf(self) -> bool {
        &&& Self::table_ok(self.block_coords(), self.index@)
        &&& Self::table_ok(self.active@, self.active_index@)
        &&& forall|i: int|
            0 <= i < self.blocks@.len() ==> in_safe(#[trigger] self.blocks@[i].0)
        &&& forall|i: int| 0 <= i < self.active@.len() ==> in_safe(#[trigger] self.active@[i])
        &&& forall|i: int|
            0 <= i < self.blocks@.len() ==> self.active_index@.contains_key(
                enc_coord(#[trigger] self.blocks@[i].0),
            )
    }

    /// The set of live world cells.
    pub open spec fn scells(self) -> Set<(int, int)> {
        Set::new(
            |p: (int, int)|
                match find_block(self.blocks@, (p.0 / 64, p.1 / 64)) {
                    Option::Some(ch) => ch.cell(p.0 % 64, p.1 % 64),
                    Option::None => false,
                },
        )
    }

    /// A fresh, empty engine.
    pub fn new() -> (r: Self)
        ensures
            r.wf(),
            r.scells() =~= Set::<(int, int)>::empty(),
            r.generation == 0,
    {
        let r = SparseLife {
            blocks: Vec::new(),
            index: HashMap::new(),
            active: Vec::new(),
            active_index: HashMap::new(),
            generation: 0,
        };
        proof {
            assert(r.blocks@.len() == 0);
            assert(r.scells() =~= Set::<(int, int)>::empty());
        }
        r
    }

    /// Position of the block entry for tile `c`, if present.
    fn lookup_block(&self, c: (i64, i64)) -> (r: Option<usize>)
        requires
            self.wf(),
        ensures
            match r {
                Option::Some(i) => i < self.blocks@.len() && self.blocks@[i as int].0 == c
                    && find_block(self.blocks@, (c.0 as int, c.1 as int)) == Option::Some(
                    self.blocks@[i as int].1,
                ),
                Option::None => find_block(self.blocks@, (c.0 as int, c.1 as int))
                    == Option::<BitChunk>::None,
            },
    {
        let key = coord_key(c);
        match self.index.get(&key) {
            Some(iref) => {
                let i: usize = *iref;
                proof {
                    assert(self.index@[key] == i);
                    assert(enc_coord(self.block_coords()[i as int]) == key);
                    lemma_enc_injective(self.blocks@[i as int].0, c);
                    lemma_blocks_unique(*self);
                    lemma_find_block_present(self.blocks@, i as int);
                }
                Some(i)
            },
            None => {
                proof {
                    assert forall|i: int| 0 <= i < self.blocks@.len() implies self.blocks@[i].0
                        != c by {
                        if self.blocks@[i].0 == c {
                            assert(self.block_coords()[i] == self.blocks@[i].0);
                            assert(self.index@.contains_key(enc_coord(self.block_coords()[i])));
                        }
                    }
                    lemma_find_block_absent(self.blocks@, (c.0 as int, c.1 as int));
                }
                None
            },
        }
    }
}

impl SparseLife {
    /// Marks a tile coordinate active, if not already.
    fn mark_active(&mut self, c: (i64, i64))
        requires
            old(self).wf(),
            in_safe(c),
        ensures
            final(self).wf(),
            final(self).blocks@ == old(self).blocks@,
            final(self).index@ == old(self).index@,
            final(self).generation == old(self).generation,
            final(self).active_index@.contains_key(enc_coord(c)),
            forall|k: u128|
                old(self).active_index@.contains_key(k) ==> final(self).active_index@.contains_key(
                    k,
                ),
    {
        let key = coord_key(c);
        if self.active_index.contains_key(&key) {
            return ;
        }
        let pos = self.active.len();
        self.active.push(c);
        self.active_index.insert(key, pos);
        proof {
            let v = self.active@;
            let m = self.active_index@;
            assert(v =~= old(self).active@.push(c));
            assert forall|i: int, j: int| 0 <= i < j < v.len() implies v[i] != v[j] by {
                if j == v.len() - 1 {
                    if v[i] == c {
                        assert(old(self).active_index@.contains_key(
                            enc_coord(old(self).active@[i]),
                        ));
                    }
                }
            }
            assert forall|i: int|
                0 <= i < v.len() implies m.contains_key(#[trigger] enc_coord(v[i])) && m[enc_coord(
                v[i],
            )] == i by {
                if i < v.len() - 1 {
                    assert(v[i] == old(self).active@[i]);
                    if enc_coord(v[i]) == key {
                        lemma_enc_injective(v[i], c);
                        assert(old(self).active_index@.contains_key(enc_coord(v[i])));
                    }
                }
            }
            assert forall|k: u128|
                m.contains_key(k) implies (#[trigger] m[k]) < v.len() && enc_coord(v[m[k] as int])
                    == k by {
                if k != key {
                    assert(old(self).active_index@.contains_key(k));
                    assert(v[old(self).active_index@[k] as int] == old(self).active@[old(
                        self,
                    ).active_index@[k] as int]);
                }
            }
        }
    }

    /// Marks a tile coordinate active if it is within the accepted range.
    fn mark_active_if_safe(&mut self, c: (i64, i64))
        requires
            old(self).wf(),
        ensures
            final(self).wf(),
            final(self).blocks@ == old(self).blocks@,
            final(self).index@ == old(self).index@,
            final(self).generation == old(self).generation,
            in_safe(c) ==> final(self).active_index@.contains_key(enc_coord(c)),
            forall|k: u128|
                old(self).active_index@.contains_key(k) ==> final(self).active_index@.contains_key(
                    k,
                ),
    {
        if -SAFE_COORD <= c.0 && c.0 < SAFE_COORD && -SAFE_COORD <= c.1 && c.1 < SAFE_COORD {
            self.mark_active(c);
        }
    }

    /// Writes one cell; every signed 64-bit coordinate is accepted.
    pub fn set_cell(&mut self, x: i64, y: i64, alive: bool)
        requires
            old(self).wf(),
        ensures
            final(self).wf(),
            final(self).generation == old(self).generation,
            final(self).scells() =~= (if alive {
                old(self).scells().insert((x as int, y as int))
            } else {
                old(self).scells().remove((x as int, y as int))
            }),
    {
        let (bc, lx, ly) = split_coords(x, y);
        proof {
            lemma_i64_cell_in_safe(x, y);
        }
        self.mark_active(bc);
        self.mark_active_if_safe((bc.0 - 1, bc.1 - 1));
        self.mark_active_if_safe((bc.0, bc.1 - 1));
        self.mark_active_if_safe((bc.0 + 1, bc.1 - 1));
        self.mark_active_if_safe((bc.0 - 1, bc.1));
        self.mark_active_if_safe((bc.0 + 1, bc.1));
        self.mark_active_if_safe((bc.0 - 1, bc.1 + 1));
        self.mark_active_if_safe((bc.0, bc.1 + 1));
        self.mark_active_if_safe((bc.0 + 1, bc.1 + 1));
        let ghost pre = *self;
        match self.lookup_block(bc) {
            Some(i) => {
                let mut entry = self.blocks[i];
                entry.1.set(lx as i32, ly as i32, alive);
                self.blocks[i] = entry;
                proof {
                    let v = self.blocks@;
                    let old_v = pre.blocks@;
                    assert(v =~= old_v.update(i as int, entry));
                    assert(self.block_coords() =~= pre.block_coords());
                    lemma_blocks_unique(pre);
                    lemma_find_block_update(old_v, v, i as int);
                    assert(find_block(v, (bc.0 as int, bc.1 as int)) == Option::Some(entry.1)) by {
                        assert forall|a: int, b: int|
                            0 <= a < b < v.len() implies (#[trigger] v[a]).0 != (
                        #[trigger] v[b]).0 by {
                            assert(v[a].0 == old_v[a].0 && v[b].0 == old_v[b].0);
                        }
                        lemma_find_block_present(v, i as int);
                    }
                    lemma_split_correct(x as int, y as int, bc, lx as int, ly as int);
                    lemma_scells_pointwise(pre, *self, bc, x as int, y as int, lx as int, ly as int, alive);
                }
            },
            None => {
                if !alive {
                    proof {
                        lemma_split_correct(x as int, y as int, bc, lx as int, ly as int);
                        assert forall|p: (int, int)|
                            self.scells().contains(p) == pre.scells().remove(
                                (x as int, y as int),
                            ).contains(p) by {}
                        assert(self.scells() =~= pre.scells().remove((x as int, y as int)));
                    }
                    return ;
                }
                let mut ch = BitChunk::new();
                ch.set(lx as i32, ly as i32, true);
                let pos = self.blocks.len();
                let key = coord_key(bc);
                self.blocks.push((bc, ch));
                self.index.insert(key, pos);
                proof {
                    let v = self.blocks@;
                    assert(v =~= pre.blocks@.push((bc, ch)));
                    assert(self.block_coords() =~= pre.block_coords().push(bc));
                    let coords = self.block_coords();
                    let m = self.index@;
                    lemma_blocks_unique(pre);
                    assert forall|j: int|
                        0 <= j < pre.blocks@.len() implies (#[trigger] pre.blocks@[j]).0 != bc by {
                        if pre.blocks@[j].0 == bc {
                            lemma_find_block_present(pre.blocks@, j);
                        }
                    }
                    assert forall|a: int, b: int|
                        0 <= a < b < coords.len() implies coords[a] != coords[b] by {
                        if b == coords.len() - 1 {
                            assert(coords[a] == pre.block_coords()[a]);
                            assert(pre.block_coords()[a] == pre.blocks@[a].0);
                        } else {
                            assert(coords[a] == pre.block_coords()[a]);
                            assert(coords[b] == pre.block_coords()[b]);
                        }
                    }
                    assert forall|i2: int|
                        0 <= i2 < coords.len() implies m.contains_key(
                        #[trigger] enc_coord(coords[i2]),
                    ) && m[enc_coord(coords[i2])] == i2 by {
                        if i2 < coords.len() - 1 {
                            assert(coords[i2] == pre.block_coords()[i2]);
                            assert(pre.block_coords()[i2] == pre.blocks@[i2].0);
                            if enc_coord(coords[i2]) == key {
                                lemma_enc_injective(coords[i2], bc);
                            }
                        }
                    }
                    assert forall|k: u128|
                        m.contains_key(k) implies (#[trigger] m[k]) < coords.len() && enc_coord(
                        coords[m[k] as int],
                    ) == k by {
                        if k != key {
                            assert(pre.index@.contains_key(k));
                            assert(coords[pre.index@[k] as int] == pre.block_coords()[pre.index@[k] as int]);
                        }
                    }
                    assert(find_block(v, (bc.0 as int, bc.1 as int)) == Option::Some(ch));
                    assert forall|c: (int, int)|
                        c != (bc.0 as int, bc.1 as int) implies find_block(v, c) == find_block(
                        pre.blocks@,
                        c,
                    ) by {
                        assert(v.drop_last() =~= pre.blocks@);
                    }
                    assert(find_block(pre.blocks@, (bc.0 as int, bc.1 as int))
                        == Option::<BitChunk>::None);
                    lemma_split_correct(x as int, y as int, bc, lx as int, ly as int);
                    lemma_scells_pointwise(pre, *self, bc, x as int, y as int, lx as int, ly as int, true);
                }
            },
        }
    }
}

/// Every signed 64-bit cell lies in the accepted range: the range is
/// exactly the machine grid.
pub proof fn lemma_i64_cell_in_safe(x: i64, y: i64)
    ensures
        cell_in_safe(x as int, y as int),
{
    vstd::arithmetic::div_mod::lemma_div_is_ordered(i64::MIN as int, x as int, 64);
    vstd::arithmetic::div_mod::lemma_div_is_ordered(x as int, i64::MAX as int, 64);
    vstd::arithmetic::div_mod::lemma_div_is_ordered(i64::MIN as int, y as int, 64);
    vstd::arithmetic::div_mod::lemma_div_is_ordered(y as int, i64::MAX as int, 64);
    vstd::arithmetic::div_mod::lemma_fundamental_div_mod_converse(
        i64::MIN as int,
        64,
        -0x200_0000_0000_0000,
        0,
    );
    vstd::arithmetic::div_mod::lemma_fundamental_div_mod_converse(
        i64::MAX as int,
        64,
        0x1FF_FFFF_FFFF_FFFF,
        63,
    );
}

/// Whether every cell of a set is representable on the signed 64-bit
/// grid.
pub open spec fn set_in_safe(s: Set<(int, int)>) -> bool {
    forall|p: (int, int)| s.contains(p) ==> cell_in_safe(p.0, p.1)
}

/// Whether a tile coordinate is within the accepted range.
pub open spec fn in_safe(c: (i64, i64)) -> bool {
    -SAFE_COORD <= c.0 < SAFE_COORD && -SAFE_COORD <= c.1 < SAFE_COORD
}

/// Packs a tile coordinate into one map key.
fn coord_key(c: (i64, i64)) -> (r: u128)
    ensures
        r == enc_coord(c),
{
    (((c.0 as u64) as u128) << 64u128) | ((c.1 as u64) as u128)
}

/// A list with pairwise distinct coordinates finds the entry any position
/// holds.
pub proof fn lemma_find_block_present(v: Seq<((i64, i64), BitChunk)>, i: int)
    requires
        0 <= i < v.len(),
        forall|a: int, b: int|
            0 <= a < b < v.len() ==> (#[trigger] v[a]).0 != (#[trigger] v[b]).0,
    ensures
        find_block(v, (v[i].0.0 as int, v[i].0.1 as int)) == Option::Some(v[i].1),
    decreases v.len(),
{
    if i == v.len() - 1 {
    } else {
        assert(v.last().0 != v[i].0);
        assert(v.drop_last()[i] == v[i]);
        lemma_find_block_present(v.drop_last(), i);
    }
}

/// A coordinate no entry holds is not found.
pub proof fn lemma_find_block_absent(v: Seq<((i64, i64), BitChunk)>, c: (int, int))
    requires
        forall|i: int| 0 <= i < v.len() ==> ((#[trigger] v[i]).0.0 != c.0 || v[i].0.1 != c.1),
    ensures
        find_block(v, c) == Option::<BitChunk>::None,
    decreases v.len(),
{
    if v.len() > 0 {
        assert(v.drop_last() =~= v.subrange(0, v.len() - 1));
        lemma_find_block_absent(v.drop_last(), c);
    }
}


/// World cells whose tile lies in the accepted range.
pub open spec fn cell_in_safe(x: int, y: int) -> bool {
    &&& -SAFE_COORD <= x / 64 < SAFE_COORD
    &&& -SAFE_COORD <= y / 64 < SAFE_COORD
}

/// Splits a world coordinate into its tile coordinate and the local
/// offsets inside the tile.
pub fn split_coords(x: i64, y: i64) -> (r: ((i64, i64), i64, i64))
    ensures
        r.0.0 as int == x as int / 64,
        r.0.1 as int == y as int / 64,
        r.1 as int == x as int % 64,
        r.2 as int == y as int % 64,
        0 <= r.1 < 64,
        0 <= r.2 < 64,
{
    let bx = match x.checked_div_euclid(64) {
        Some(v) => v,
        None => {
            proof {
                assert(false);
            }
            0
        },
    };
    let by = match y.checked_div_euclid(64) {
        Some(v) => v,
        None => {
            proof {
                assert(false);
            }
            0
        },
    };
    let lx = match x.checked_rem_euclid(64) {
        Some(v) => v,
        None => {
            proof {
                assert(false);
            }
            0
        },
    };
    let ly = match y.checked_rem_euclid(64) {
        Some(v) => v,
        None => {
            proof {
                assert(false);
            }
            0
        },
    };
    ((bx, by), lx, ly)
}

/// A world coordinate is recovered from its tile and local offsets.
pub proof fn lemma_split_correct(x: int, y: int, bc: (i64, i64), lx: int, ly: int)
    requires
        bc.0 as int == x / 64,
        bc.1 as int == y / 64,
        lx == x % 64,
        ly == y % 64,
    ensures
        x == 64 * (bc.0 as int) + lx,
        y == 64 * (bc.1 as int) + ly,
        0 <= lx < 64,
        0 <= ly < 64,
{
    vstd::arithmetic::div_mod::lemma_fundamental_div_mod(x, 64);
    vstd::arithmetic::div_mod::lemma_fundamental_div_mod(y, 64);
}

/// Updating one entry in place changes no other coordinate's lookup.
pub proof fn lemma_find_block_update(a: Seq<((i64, i64), BitChunk)>, b: Seq<((i64, i64), BitChunk)>, i: int)
    requires
        0 <= i < a.len(),
        a.len() == b.len(),
        forall|j: int| 0 <= j < a.len() && j != i ==> a[j] == b[j],
        b[i].0 == a[i].0,
    ensures
        forall|c: (int, int)|
            (c.0 != a[i].0.0 as int || c.1 != a[i].0.1 as int) ==> find_block(a, c) == find_block(
                b,
                c,
            ),
    decreases a.len(),
{
    assert forall|c: (int, int)|
        (c.0 != a[i].0.0 as int || c.1 != a[i].0.1 as int) implies find_block(a, c) == find_block(
        b,
        c,
    ) by {
        if i == a.len() - 1 {
            assert(a.drop_last() =~= b.drop_last());
            assert(b.last().0 == a.last().0);
            assert(!(a.last().0.0 == c.0 && a.last().0.1 == c.1));
            assert(find_block(a, c) == find_block(a.drop_last(), c));
            assert(find_block(b, c) == find_block(b.drop_last(), c));
        } else {
            assert(a.last() == b.last());
            if !(a.last().0.0 == c.0 && a.last().0.1 == c.1) {
                assert(a.drop_last()[i] == a[i]);
                assert(b.drop_last()[i] == b[i]);
                assert(forall|j: int|
                    0 <= j < a.len() - 1 && j != i ==> a.drop_last()[j] == b.drop_last()[j]);
                lemma_find_block_update(a.drop_last(), b.drop_last(), i);
            }
        }
    }
}

/// Rewriting exactly the cell `(x, y)` in its tile turns the live set
/// into the set with that cell inserted or removed.
pub proof fn lemma_scells_pointwise(
    pre: SparseLife,
    post: SparseLife,
    bc: (i64, i64),
    x: int,
    y: int,
    lx: int,
    ly: int,
    alive: bool,
)
    requires
        bc.0 as int == x / 64,
        bc.1 as int == y / 64,
        lx == x % 64,
        ly == y % 64,
        match find_block(post.blocks@, (bc.0 as int, bc.1 as int)) {
            Option::Some(ch) => forall|a: int, b: int|
                ch.cell(a, b) == (if a == lx && b == ly {
                    alive
                } else {
                    match find_block(pre.blocks@, (bc.0 as int, bc.1 as int)) {
                        Option::Some(o) => o.cell(a, b),
                        Option::None => false,
                    }
                }),
            Option::None => false,
        },
        forall|c: (int, int)|
            c != (bc.0 as int, bc.1 as int) ==> find_block(post.blocks@, c) == find_block(
                pre.blocks@,
                c,
            ),
    ensures
        post.scells() =~= (if alive {
            pre.scells().insert((x, y))
        } else {
            pre.scells().remove((x, y))
        }),
{
    lemma_split_correct(x, y, bc, lx, ly);
    assert forall|p: (int, int)|
        post.scells().contains(p) == (if alive {
            pre.scells().insert((x, y))
        } else {
            pre.scells().remove((x, y))
        }).contains(p) by {
        let pb = (p.0 / 64, p.1 / 64);
        vstd::arithmetic::div_mod::lemma_fundamental_div_mod(p.0, 64);
        vstd::arithmetic::div_mod::lemma_fundamental_div_mod(p.1, 64);
        if pb == (bc.0 as int, bc.1 as int) {
            assert((p.0 % 64 == lx && p.1 % 64 == ly) <==> p == (x, y));
        } else {
            assert(p != (x, y));
            assert(find_block(post.blocks@, pb) == find_block(pre.blocks@, pb));
        }
    }
}


/// A tile value that shows exactly the engine's cells at tile `c`.
pub open spec fn chunk_matches(s: SparseLife, c: (int, int), ch: BitChunk) -> bool {
    forall|a: int, b: int|
        #[trigger] ch.cell(a, b) == match find_block(s.blocks@, c) {
            Option::Some(o) => o.cell(a, b),
            Option::None => false,
        }
}

/// What one evaluation of a tile must hand back: the exact next
/// generation of the tile when anything in it is live, nothing otherwise.
pub open spec fn opt_eval_rel(
    s: SparseLife,
    c: (i64, i64),
    r: Option<((i64, i64), BitChunk)>,
) -> bool {
    match r {
        Option::Some(e) => e.0 == c && forall|lx: int, ly: int|
            0 <= lx < 64 && 0 <= ly < 64 ==> (#[trigger] e.1.cell(lx, ly) == life_next(
                s.scells(),
            ).contains((c.0 as int * 64 + lx, c.1 as int * 64 + ly))),
        Option::None => forall|lx: int, ly: int|
            0 <= lx < 64 && 0 <= ly < 64 ==> !(#[trigger] life_next(s.scells()).contains(
                (c.0 as int * 64 + lx, c.1 as int * 64 + ly),
            )),
    }
}

/// A found tile entry for any coordinate a lookup reports.
pub proof fn lemma_find_block_to_entry(v: Seq<((i64, i64), BitChunk)>, c: (int, int))
    requires
        find_block(v, c).is_some(),
    ensures
        exists|m: int|
            0 <= m < v.len() && (#[trigger] v[m]).0.0 == c.0 && v[m].0.1 == c.1 && v[m].1
                == find_block(v, c)->Some_0,
    decreases v.len(),
{
    if v.len() > 0 {
        if v.last().0.0 == c.0 && v.last().0.1 == c.1 {
            assert(v[v.len() - 1] == v.last());
        } else {
            lemma_find_block_to_entry(v.drop_last(), c);
            let m = choose|m: int|
                0 <= m < v.drop_last().len() && (#[trigger] v.drop_last()[m]).0.0 == c.0
                    && v.drop_last()[m].0.1 == c.1 && v.drop_last()[m].1 == find_block(
                    v.drop_last(),
                    c,
                )->Some_0;
            assert(v[m] == v.drop_last()[m]);
        }
    }
}

/// The nine assembled tiles read the engine's own cells: the neighbour
/// count the packed step uses equals the global neighbour count.
#[verifier::rlimit(100)]
pub proof fn lemma_nine_global(
    s: SparseLife,
    bc: (i64, i64),
    cen: BitChunk,
    csw: BitChunk,
    cs: BitChunk,
    cse: BitChunk,
    cw: BitChunk,
    ce: BitChunk,
    cnw: BitChunk,
    cn: BitChunk,
    cne: BitChunk,
    gx: int,
    gy: int,
)
    requires
        in_safe(bc),
        chunk_matches(s, (bc.0 as int, bc.1 as int), cen),
        chunk_matches(s, (bc.0 - 1 as int, bc.1 - 1 as int), csw),
        chunk_matches(s, (bc.0 as int, bc.1 - 1 as int), cs),
        chunk_matches(s, (bc.0 + 1 as int, bc.1 - 1 as int), cse),
        chunk_matches(s, (bc.0 - 1 as int, bc.1 as int), cw),
        chunk_matches(s, (bc.0 + 1 as int, bc.1 as int), ce),
        chunk_matches(s, (bc.0 - 1 as int, bc.1 + 1 as int), cnw),
        chunk_matches(s, (bc.0 as int, bc.1 + 1 as int), cn),
        chunk_matches(s, (bc.0 + 1 as int, bc.1 + 1 as int), cne),
        -64 <= gx < 128,
        -64 <= gy < 128,
    ensures
        crate::chunk::nine_cell9(cen, csw, cs, cse, cw, ce, cnw, cn, cne, gx, gy) == s.scells(
        ).contains((bc.0 as int * 64 + gx, bc.1 as int * 64 + gy)),
{
    reveal(crate::chunk::nine_cell9);
    let wx = bc.0 as int * 64 + gx;
    let wy = bc.1 as int * 64 + gy;
    let dx: int = if gx < 0 {
        -1
    } else if gx < 64 {
        0
    } else {
        1
    };
    let dy: int = if gy < 0 {
        -1
    } else if gy < 64 {
        0
    } else {
        1
    };
    vstd::arithmetic::div_mod::lemma_fundamental_div_mod_converse(
        wx,
        64,
        bc.0 as int + dx,
        gx - 64 * dx,
    );
    vstd::arithmetic::div_mod::lemma_fundamental_div_mod_converse(
        wy,
        64,
        bc.1 as int + dy,
        gy - 64 * dy,
    );
    assert(wx / 64 == bc.0 as int + dx && wx % 64 == gx - 64 * dx);
    assert(wy / 64 == bc.1 as int + dy && wy % 64 == gy - 64 * dy);
}

/// The global neighbour count of a cell of tile `bc` equals the packed
/// step's nine-tile count.
pub proof fn lemma_nine_count_global(
    s: SparseLife,
    bc: (i64, i64),
    cen: BitChunk,
    csw: BitChunk,
    cs: BitChunk,
    cse: BitChunk,
    cw: BitChunk,
    ce: BitChunk,
    cnw: BitChunk,
    cn: BitChunk,
    cne: BitChunk,
    lx: int,
    ly: int,
)
    requires
        in_safe(bc),
        chunk_matches(s, (bc.0 as int, bc.1 as int), cen),
        chunk_matches(s, (bc.0 - 1 as int, bc.1 - 1 as int), csw),
        chunk_matches(s, (bc.0 as int, bc.1 - 1 as int), cs),
        chunk_matches(s, (bc.0 + 1 as int, bc.1 - 1 as int), cse),
        chunk_matches(s, (bc.0 - 1 as int, bc.1 as int), cw),
        chunk_matches(s, (bc.0 + 1 as int, bc.1 as int), ce),
        chunk_matches(s, (bc.0 - 1 as int, bc.1 + 1 as int), cnw),
        chunk_matches(s, (bc.0 as int, bc.1 + 1 as int), cn),
        chunk_matches(s, (bc.0 + 1 as int, bc.1 + 1 as int), cne),
        0 <= lx < 64,
        0 <= ly < 64,
    ensures
        crate::chunk::nine_count9(cen, csw, cs, cse, cw, ce, cnw, cn, cne, lx, ly)
            == crate::life::neighbor_count(s.scells(), bc.0 as int * 64 + lx, bc.1 as int * 64 + ly),
        cen.cell(lx, ly) == s.scells().contains((bc.0 as int * 64 + lx, bc.1 as int * 64 + ly)),
{
    lemma_nine_global(s, bc, cen, csw, cs, cse, cw, ce, cnw, cn, cne, lx - 1, ly - 1);
    lemma_nine_global(s, bc, cen, csw, cs, cse, cw, ce, cnw, cn, cne, lx, ly - 1);
    lemma_nine_global(s, bc, cen, csw, cs, cse, cw, ce, cnw, cn, cne, lx + 1, ly - 1);
    lemma_nine_global(s, bc, cen, csw, cs, cse, cw, ce, cnw, cn, cne, lx - 1, ly);
    lemma_nine_global(s, bc, cen, csw, cs, cse, cw, ce, cnw, cn, cne, lx + 1, ly);
    lemma_nine_global(s, bc, cen, csw, cs, cse, cw, ce, cnw, cn, cne, lx - 1, ly + 1);
    lemma_nine_global(s, bc, cen, csw, cs, cse, cw, ce, cnw, cn, cne, lx, ly + 1);
    lemma_nine_global(s, bc, cen, csw, cs, cse, cw, ce, cnw, cn, cne, lx + 1, ly + 1);
    lemma_nine_global(s, bc, cen, csw, cs, cse, cw, ce, cnw, cn, cne, lx, ly);
    reveal(crate::chunk::nine_cell9);
}

impl SparseLife {
    /// Fetches the tile at `c` as a value, an all-dead tile if absent.
    fn fetch_chunk(&self, c: (i64, i64)) -> (r: BitChunk)
        requires
            self.wf(),
        ensures
            chunk_matches(*self, (c.0 as int, c.1 as int), r),
    {
        match self.lookup_block(c) {
            Some(i) => {
                let e = self.blocks[i];
                e.1
            },
            None => {
                let r = BitChunk::new();
                r
            },
        }
    }

    /// Evolves the tile at `c` one generation against the engine's
    /// current state, returning nothing when the result is empty.
    pub fn evolve_block(&self, c: (i64, i64)) -> (r: Option<((i64, i64), BitChunk)>)
        requires
            self.wf(),
            in_safe(c),
        ensures
            opt_eval_rel(*self, c, r),
    {
        let cen = self.fetch_chunk(c);
        let csw = self.fetch_chunk((c.0 - 1, c.1 - 1));
        let cs = self.fetch_chunk((c.0, c.1 - 1));
        let cse = self.fetch_chunk((c.0 + 1, c.1 - 1));
        let cw = self.fetch_chunk((c.0 - 1, c.1));
        let ce = self.fetch_chunk((c.0 + 1, c.1));
        let cnw = self.fetch_chunk((c.0 - 1, c.1 + 1));
        let cn = self.fetch_chunk((c.0, c.1 + 1));
        let cne = self.fetch_chunk((c.0 + 1, c.1 + 1));
        let arr: [[&BitChunk; 3]; 3] = [[&csw, &cs, &cse], [&cw, &cen, &ce], [&cnw, &cn, &cne]];
        let (next, alive) = cen.step_bitwise_9(arr);
        proof {
            assert(*arr[0][0] == csw && *arr[0][1] == cs && *arr[0][2] == cse);
            assert(*arr[1][0] == cw && *arr[1][2] == ce);
            assert(*arr[2][0] == cnw && *arr[2][1] == cn && *arr[2][2] == cne);
            assert forall|lx: int, ly: int|
                0 <= lx < 64 && 0 <= ly < 64 implies (#[trigger] next.cell(lx, ly) == life_next(
                self.scells(),
            ).contains((c.0 as int * 64 + lx, c.1 as int * 64 + ly))) by {
                lemma_nine_count_global(
                    *self,
                    c,
                    cen,
                    csw,
                    cs,
                    cse,
                    cw,
                    ce,
                    cnw,
                    cn,
                    cne,
                    lx,
                    ly,
                );
                assert(crate::chunk::nine_count(cen, arr, lx, ly) == crate::chunk::nine_count9(
                    cen,
                    csw,
                    cs,
                    cse,
                    cw,
                    ce,
                    cnw,
                    cn,
                    cne,
                    lx,
                    ly,
                ));
            }
        }
        if alive {
            Some((c, next))
        } else {
            proof {
                assert forall|lx: int, ly: int|
                    0 <= lx < 64 && 0 <= ly < 64 implies !(#[trigger] life_next(
                    self.scells(),
                ).contains((c.0 as int * 64 + lx, c.1 as int * 64 + ly))) by {
                    assert(next.data[ly] == 0u64);
                    crate::chunk::lemma_zero_row(lx as u64);
                    assert(!next.cell(lx, ly));
                }
            }
            None
        }
    }
}


/// The tiles handed back by one parallel evaluation pass: one output per
/// input coordinate, in order, each meeting `evolve_block`'s contract.
/// Relies on rayon's `par_iter().map().collect()`, which yields exactly
/// the image of each input in input order; the closure only calls the
/// verified `evolve_block`.
#[verifier::external_body]
fn par_evolve(eng: &SparseLife, list: &Vec<(i64, i64)>) -> (r: Vec<
    Option<((i64, i64), BitChunk)>,
>)
    requires
        eng.wf(),
        forall|k: int| 0 <= k < list@.len() ==> in_safe(#[trigger] list@[k]),
    ensures
        r@.len() == list@.len(),
        forall|k: int|
            0 <= k < r@.len() ==> opt_eval_rel(*eng, list@[k], #[trigger] r@[k]),
{
    rayon::iter::ParallelIterator::collect(
        rayon::iter::ParallelIterator::map(
            rayon::iter::IntoParallelRefIterator::par_iter(list),
            |c: &(i64, i64)| eng.evolve_block(*c),
        ),
    )
}

impl SparseLife {
    /// Whether the world cell `(x, y)` is live.
    pub fn get_cell(&self, x: i64, y: i64) -> (r: bool)
        requires
            self.wf(),
        ensures
            r == self.scells().contains((x as int, y as int)),
    {
        let (bc, lx, ly) = split_coords(x, y);
        match self.lookup_block(bc) {
            Some(i) => {
                let e = self.blocks[i];
                e.1.get(lx as i32, ly as i32)
            },
            None => false,
        }
    }

    /// Empties the engine.
    pub fn clear(&mut self)
        ensures
            final(self).wf(),
            final(self).scells() =~= Set::<(int, int)>::empty(),
            final(self).generation == 0,
    {
        self.blocks = Vec::new();
        self.index = HashMap::new();
        self.active = Vec::new();
        self.active_index = HashMap::new();
        self.generation = 0;
        proof {
            assert(final(self).scells() =~= Set::<(int, int)>::empty());
        }
    }

    /// Every live cell has machine-representable coordinates.
    pub proof fn lemma_cells_bounded(self)
        requires
            self.wf(),
        ensures
            forall|q: (int, int)|
                self.scells().contains(q) ==> i64::MIN <= q.0 <= i64::MAX && i64::MIN <= q.1
                    <= i64::MAX,
            forall|q: (int, int)| self.scells().contains(q) ==> cell_in_safe(q.0, q.1),
    {
        assert forall|q: (int, int)|
            self.scells().contains(q) implies i64::MIN <= q.0 <= i64::MAX && i64::MIN <= q.1
            <= i64::MAX && cell_in_safe(q.0, q.1) by {
            let qb = (q.0 / 64, q.1 / 64);
            lemma_find_block_to_entry(self.blocks@, qb);
            let m = choose|m: int|
                0 <= m < self.blocks@.len() && (#[trigger] self.blocks@[m]).0.0 == qb.0
                    && self.blocks@[m].0.1 == qb.1 && self.blocks@[m].1 == find_block(
                    self.blocks@,
                    qb,
                )->Some_0;
            assert(in_safe(self.blocks@[m].0));
            vstd::arithmetic::div_mod::lemma_fundamental_div_mod(q.0, 64);
            vstd::arithmetic::div_mod::lemma_fundamental_div_mod(q.1, 64);
        }
    }

    /// Number of live cells: the size of the live set.
    pub fn population(&self) -> (r: u64)
        requires
            self.wf(),
        ensures
            self.scells().finite(),
            r == self.scells().len(),
    {
        let out = self.export();
        proof {
            self.lemma_cells_bounded();
            crate::laws::lemma_listing_counts(self.scells(), out@);
        }
        out.len() as u64
    }

    /// Writes many cells to one value, one write per coordinate.
    pub fn set_cells(&mut self, coords: &Vec<(i64, i64)>, alive: bool)
        requires
            old(self).wf(),
        ensures
            final(self).wf(),
            final(self).generation == old(self).generation,
            alive ==> final(self).scells() =~= old(self).scells().union(
                crate::hashlife::coord_set(coords@),
            ),
            !alive ==> final(self).scells() =~= old(self).scells().difference(
                crate::hashlife::coord_set(coords@),
            ),
    {
        let ghost pre = *self;
        let mut k: usize = 0;
        while k < coords.len()
            invariant
                pre.wf(),
                self.wf(),
                self.generation == pre.generation,
                0 <= k <= coords@.len(),
                alive ==> self.scells() =~= pre.scells().union(
                    crate::hashlife::coord_set(coords@.take(k as int)),
                ),
                !alive ==> self.scells() =~= pre.scells().difference(
                    crate::hashlife::coord_set(coords@.take(k as int)),
                ),
            decreases coords@.len() - k,
        {
            let (x, y) = coords[k];
            let ghost before = *self;
            self.set_cell(x, y, alive);
            proof {
                let p = (x as int, y as int);
                crate::hashlife::lemma_coord_set_take(coords@, k as int);
                let prev = crate::hashlife::coord_set(coords@.take(k as int));
                let cur = crate::hashlife::coord_set(coords@.take(k as int + 1));
                assert(cur == prev.insert(p));
                if alive {
                    assert(self.scells() =~= before.scells().insert(p));
                    assert(self.scells() =~= pre.scells().union(cur));
                } else {
                    assert(self.scells() =~= before.scells().remove(p));
                    assert(self.scells() =~= pre.scells().difference(cur));
                }
            }
            k = k + 1;
        }
        proof {
            assert(coords@.take(coords@.len() as int) =~= coords@);
        }
    }

    /// Replaces the whole universe by the given live set.
    pub fn import(&mut self, alive_cells: &Vec<(i64, i64)>)
        requires
            old(self).wf(),
        ensures
            final(self).wf(),
            final(self).generation == 0,
            final(self).scells() =~= crate::hashlife::coord_set(alive_cells@),
    {
        self.clear();
        let ghost cleared = *self;
        self.set_cells(alive_cells, true);
        proof {
            assert(cleared.scells().union(crate::hashlife::coord_set(alive_cells@))
                =~= crate::hashlife::coord_set(alive_cells@));
        }
    }

    /// Advances the universe by `steps` generations, evaluating the
    /// dilated active frontier in parallel each generation, and returns
    /// the number taken.  Whenever every intermediate generation stays on
    /// the signed 64-bit grid, the final live set is exactly the
    /// `steps`-fold successor of the initial one.
    pub fn step(&mut self, steps: u64) -> (r: u64)
        requires
            old(self).wf(),
            old(self).generation + steps <= u64::MAX,
        ensures
            final(self).wf(),
            r == steps,
            final(self).generation == old(self).generation + steps,
            steps == 0 ==> final(self).scells() =~= old(self).scells(),
            (forall|k: nat|
                k <= steps ==> set_in_safe(
                    #[trigger] crate::life::life_steps(k, old(self).scells()),
                )) ==> final(self).scells() =~= crate::life::life_steps(
                steps as nat,
                old(self).scells(),
            ),
    {
        if steps == 0 {
            return 0;
        }
        let ghost pre = *self;
        let ghost g0 = self.generation;
        let mut t: u64 = 0;
        while t < steps
            invariant
                self.wf(),
                0 <= t <= steps,
                self.generation == g0 + t,
                g0 + steps <= u64::MAX,
                (forall|k: nat|
                    k <= steps ==> set_in_safe(
                        #[trigger] crate::life::life_steps(k, pre.scells()),
                    )) ==> self.scells() =~= crate::life::life_steps(t as nat, pre.scells()),
            decreases steps - t,
        {
            let ghost before = *self;
            self.step_once();
            proof {
                if forall|k: nat|
                    k <= steps ==> set_in_safe(
                        #[trigger] crate::life::life_steps(k, pre.scells()),
                    ) {
                    assert(set_in_safe(crate::life::life_steps((t + 1) as nat, pre.scells())));
                    assert(before.scells() == crate::life::life_steps(t as nat, pre.scells()));
                    crate::life::lemma_life_steps_snoc(pre.scells(), t as nat);
                    assert(crate::life::life_steps((t + 1) as nat, pre.scells())
                        == crate::life::life_next(before.scells()));
                    assert forall|p: (int, int)|
                        self.scells().contains(p) == crate::life::life_next(
                            before.scells(),
                        ).contains(p) by {
                        if crate::life::life_next(before.scells()).contains(p) {
                            assert(crate::life::life_steps((t + 1) as nat, pre.scells()).contains(
                                p,
                            ));
                            assert(cell_in_safe(p.0, p.1));
                        }
                    }
                    assert(self.scells() =~= crate::life::life_steps(
                        (t + 1) as nat,
                        pre.scells(),
                    ));
                }
            }
            t = t + 1;
        }
        steps
    }

    /// One generation: every tile that may change is re-evaluated from
    /// the pre-step state only, and the results replace the state.  Every
    /// cell of the result obeys the rule, and every machine-representable
    /// cell of the true successor is present; only births past the edge
    /// of the signed 64-bit grid cannot be stored.
    pub fn step_once(&mut self)
        requires
            old(self).wf(),
            old(self).generation < u64::MAX,
        ensures
            final(self).wf(),
            final(self).generation == old(self).generation + 1,
            forall|p: (int, int)|
                final(self).scells().contains(p) ==> life_next(old(self).scells()).contains(p),
            forall|p: (int, int)|
                (life_next(old(self).scells()).contains(p) && cell_in_safe(p.0, p.1))
                    ==> final(self).scells().contains(p),
    {
        let ghost pre = *self;
        let mut eval: Vec<(i64, i64)> = Vec::new();
        let mut i: usize = 0;
        while i < self.active.len()
            invariant
                self.wf(),
                *self == pre,
                0 <= i <= self.active@.len(),
                forall|k: int| 0 <= k < eval@.len() ==> in_safe(#[trigger] eval@[k]),
                forall|j: int| 0 <= j < i ==> covers9(eval@, #[trigger] self.active@[j]),
            decreases self.active@.len() - i,
        {
            let c = self.active[i];
            proof {
                assert(in_safe(self.active@[i as int]));
            }
            let ghost e0 = eval@;
            push_if_safe(&mut eval, (c.0 - 1, c.1 - 1));
            push_if_safe(&mut eval, (c.0, c.1 - 1));
            push_if_safe(&mut eval, (c.0 + 1, c.1 - 1));
            push_if_safe(&mut eval, (c.0 - 1, c.1));
            push_if_safe(&mut eval, (c.0, c.1));
            push_if_safe(&mut eval, (c.0 + 1, c.1));
            push_if_safe(&mut eval, (c.0 - 1, c.1 + 1));
            push_if_safe(&mut eval, (c.0, c.1 + 1));
            push_if_safe(&mut eval, (c.0 + 1, c.1 + 1));
            proof {
                assert(e0.is_prefix_of(eval@));
                assert forall|j: int| 0 <= j < i + 1 implies covers9(
                    eval@,
                    #[trigger] self.active@[j],
                ) by {
                    if j < i {
                        assert(covers9(e0, self.active@[j]));
                        assert forall|dx: int, dy: int|
                            -1 <= dx <= 1 && -1 <= dy <= 1 && in_safe(
                                nb_of(self.active@[j], dx, dy),
                            ) implies eval@.contains(#[trigger] nb_of(self.active@[j], dx, dy)) by {
                            lemma_contains_prefix(e0, eval@, nb_of(self.active@[j], dx, dy));
                        }
                    } else {
                        assert forall|dx: int, dy: int|
                            -1 <= dx <= 1 && -1 <= dy <= 1 && in_safe(nb_of(c, dx, dy)) implies eval@.contains(
                            #[trigger] nb_of(c, dx, dy),
                        ) by {
                            assert(nb_of(c, dx, dy) == (((c.0 + dx) as i64), ((c.1 + dy) as i64)));
                        }
                    }
                }
            }
            i = i + 1;
        }
        let results = par_evolve(self, &eval);
        let mut new_blocks: Vec<((i64, i64), BitChunk)> = Vec::new();
        let mut new_index: HashMap<u128, usize> = HashMap::new();
        let mut new_active: Vec<(i64, i64)> = Vec::new();
        let mut new_active_index: HashMap<u128, usize> = HashMap::new();
        let mut k: usize = 0;
        while k < results.len()
            invariant
                0 <= k <= results@.len(),
                results@.len() == eval@.len(),
                forall|m: int|
                    0 <= m < results@.len() ==> opt_eval_rel(pre, eval@[m], #[trigger] results@[m]),
                forall|m: int| 0 <= m < eval@.len() ==> in_safe(#[trigger] eval@[m]),
                SparseLife::table_ok(
                    new_blocks@.map_values(|e: ((i64, i64), BitChunk)| e.0),
                    new_index@,
                ),
                SparseLife::table_ok(new_active@, new_active_index@),
                new_active@ =~= new_blocks@.map_values(|e: ((i64, i64), BitChunk)| e.0),
                new_active_index@ == new_index@,
                forall|m: int| 0 <= m < new_blocks@.len() ==> in_safe(#[trigger] new_blocks@[m].0),
                forall|m: int|
                    0 <= m < new_blocks@.len() ==> entry_next_ok(pre, #[trigger] new_blocks@[m]),
                forall|m: int|
                    0 <= m < k && (#[trigger] results@[m]).is_some() ==> new_index@.contains_key(
                        enc_coord(eval@[m]),
                    ),
            decreases results@.len() - k,
        {
            match results[k] {
                Some(e) => {
                    let key = coord_key(e.0);
                    if !new_index.contains_key(&key) {
                        let ghost old_nb = new_blocks@;
                        let ghost old_na = new_active@;
                        let pos = new_blocks.len();
                        new_blocks.push(e);
                        new_index.insert(key, pos);
                        new_active.push(e.0);
                        new_active_index.insert(key, pos);
                        proof {
                            let coords = new_blocks@.map_values(
                                |e2: ((i64, i64), BitChunk)| e2.0,
                            );
                            let oldc = old_nb.map_values(|e2: ((i64, i64), BitChunk)| e2.0);
                            assert(coords =~= oldc.push(e.0));
                            assert(new_active@ =~= old_na.push(e.0));
                            assert forall|a: int, b: int|
                                0 <= a < b < coords.len() implies coords[a] != coords[b] by {
                                if b == coords.len() - 1 {
                                    if coords[a] == e.0 {
                                        assert(oldc[a] == coords[a]);
                                        assert(new_index@.contains_key(enc_coord(oldc[a])));
                                    }
                                } else {
                                    assert(coords[a] == oldc[a] && coords[b] == oldc[b]);
                                }
                            }
                            assert forall|i2: int|
                                0 <= i2 < coords.len() implies new_index@.contains_key(
                                #[trigger] enc_coord(coords[i2]),
                            ) && new_index@[enc_coord(coords[i2])] == i2 by {
                                if i2 < coords.len() - 1 {
                                    assert(coords[i2] == oldc[i2]);
                                    if enc_coord(coords[i2]) == key {
                                        lemma_enc_injective(coords[i2], e.0);
                                    }
                                }
                            }
                            assert forall|k2: u128|
                                new_index@.contains_key(k2) implies (#[trigger] new_index@[k2])
                                < coords.len() && enc_coord(coords[new_index@[k2] as int])
                                == k2 by {
                                if k2 != key {
                                    assert(coords[new_index@[k2] as int] == oldc[new_index@[k2] as int]);
                                }
                            }
                            assert(opt_eval_rel(pre, eval@[k as int], results@[k as int]));
                            assert(entry_next_ok(pre, (e.0, e.1)));
                        }
                    }
                },
                None => {},
            }
            k = k + 1;
        }
        self.blocks = new_blocks;
        self.index = new_index;
        self.active = new_active;
        self.active_index = new_active_index;
        self.generation = self.generation + 1;
        proof {
            assert forall|m: int|
                0 <= m < self.blocks@.len() implies self.active_index@.contains_key(
                enc_coord(#[trigger] self.blocks@[m].0),
            ) by {
                let coords = self.blocks@.map_values(|e2: ((i64, i64), BitChunk)| e2.0);
                assert(self.active@[m] == coords[m]);
                assert(coords[m] == self.blocks@[m].0);
            }
            assert forall|p: (int, int)|
                (life_next(pre.scells()).contains(p) && cell_in_safe(p.0, p.1)) implies final(self).scells().contains(p) by {
                crate::life::lemma_life_next_neighbor(pre.scells(), p);
                let q = choose|q: (int, int)|
                    #[trigger] pre.scells().contains(q) && p.0 - 1 <= q.0 <= p.0 + 1 && p.1 - 1
                        <= q.1 <= p.1 + 1;
                let qb = (q.0 / 64, q.1 / 64);
                lemma_find_block_to_entry(pre.blocks@, qb);
                let m = choose|m: int|
                    0 <= m < pre.blocks@.len() && (#[trigger] pre.blocks@[m]).0.0 == qb.0
                        && pre.blocks@[m].0.1 == qb.1 && pre.blocks@[m].1 == find_block(
                        pre.blocks@,
                        qb,
                    )->Some_0;
                let cc = pre.blocks@[m].0;
                assert(pre.active_index@.contains_key(enc_coord(cc)));
                let j = pre.active_index@[enc_coord(cc)];
                assert(enc_coord(pre.active@[j as int]) == enc_coord(cc));
                lemma_enc_injective(pre.active@[j as int], cc);
                assert(covers9(eval@, cc));
                lemma_div_adjacent(q.0, p.0);
                lemma_div_adjacent(q.1, p.1);
                let dx = p.0 / 64 - qb.0;
                let dy = p.1 / 64 - qb.1;
                assert(-1 <= dx <= 1 && -1 <= dy <= 1);
                let pbv = nb_of(cc, dx, dy);
                assert(pbv.0 as int == p.0 / 64 && pbv.1 as int == p.1 / 64);
                assert(in_safe(pbv) == cell_in_safe(p.0, p.1));
                assert(eval@.contains(pbv));
                let kk = choose|kk: int| 0 <= kk < eval@.len() && eval@[kk] == pbv;
                assert(opt_eval_rel(pre, eval@[kk], results@[kk]));
                vstd::arithmetic::div_mod::lemma_fundamental_div_mod(p.0, 64);
                vstd::arithmetic::div_mod::lemma_fundamental_div_mod(p.1, 64);
                match results@[kk] {
                    Option::Some(e) => {
                        assert(self.index@.contains_key(enc_coord(pbv)));
                        let pos = self.index@[enc_coord(pbv)];
                        let coords = self.blocks@.map_values(|e2: ((i64, i64), BitChunk)| e2.0);
                        assert(enc_coord(coords[pos as int]) == enc_coord(pbv));
                        lemma_enc_injective(coords[pos as int], pbv);
                        assert(coords[pos as int] == self.blocks@[pos as int].0);
                        lemma_blocks_unique(*self);
                        lemma_find_block_present(self.blocks@, pos as int);
                        assert(entry_next_ok(pre, self.blocks@[pos as int]));
                        assert(self.blocks@[pos as int].1.cell(p.0 % 64, p.1 % 64) == life_next(
                            pre.scells(),
                        ).contains((pbv.0 as int * 64 + p.0 % 64, pbv.1 as int * 64 + p.1 % 64)));
                    },
                    Option::None => {
                        assert(!life_next(pre.scells()).contains(
                            (pbv.0 as int * 64 + p.0 % 64, pbv.1 as int * 64 + p.1 % 64),
                        ));
                        assert(false);
                    },
                }
            }
            assert forall|p: (int, int)|
                final(self).scells().contains(p) implies life_next(pre.scells()).contains(p) by {
                if final(self).scells().contains(p) {
                    let pb = (p.0 / 64, p.1 / 64);
                    lemma_find_block_to_entry(self.blocks@, pb);
                    let m = choose|m: int|
                        0 <= m < self.blocks@.len() && (#[trigger] self.blocks@[m]).0.0 == pb.0
                            && self.blocks@[m].0.1 == pb.1 && self.blocks@[m].1 == find_block(
                            self.blocks@,
                            pb,
                        )->Some_0;
                    assert(entry_next_ok(pre, self.blocks@[m]));
                    vstd::arithmetic::div_mod::lemma_fundamental_div_mod(p.0, 64);
                    vstd::arithmetic::div_mod::lemma_fundamental_div_mod(p.1, 64);
                    assert(self.blocks@[m].1.cell(p.0 % 64, p.1 % 64) == life_next(
                        pre.scells(),
                    ).contains((self.blocks@[m].0.0 as int * 64 + p.0 % 64, self.blocks@[m].0.1 as int
                        * 64 + p.1 % 64)));
                }
            }
        }
    }
}

/// A freshly evaluated tile entry shows the next generation of the
/// pre-step state.
pub open spec fn entry_next_ok(pre: SparseLife, e: ((i64, i64), BitChunk)) -> bool {
    forall|lx: int, ly: int|
        0 <= lx < 64 && 0 <= ly < 64 ==> (#[trigger] e.1.cell(lx, ly) == life_next(
            pre.scells(),
        ).contains((e.0.0 as int * 64 + lx, e.0.1 as int * 64 + ly)))
}

/// Appends a tile coordinate when it is within the accepted range.
fn push_if_safe(v: &mut Vec<(i64, i64)>, c: (i64, i64))
    requires
        forall|k: int| 0 <= k < old(v)@.len() ==> in_safe(#[trigger] old(v)@[k]),
    ensures
        forall|k: int| 0 <= k < final(v)@.len() ==> in_safe(#[trigger] final(v)@[k]),
        old(v)@.is_prefix_of(final(v)@),
        in_safe(c) ==> final(v)@.contains(c),
{
    if -SAFE_COORD <= c.0 && c.0 < SAFE_COORD && -SAFE_COORD <= c.1 && c.1 < SAFE_COORD {
        v.push(c);
        proof {
            assert forall|k: int| 0 <= k < final(v)@.len() implies in_safe(
                #[trigger] final(v)@[k],
            ) by {
                if k < old(v)@.len() {
                    assert(final(v)@[k] == old(v)@[k]);
                }
            }
            assert(final(v)@[old(v)@.len() as int] == c);
            assert(final(v)@.contains(c));
        }
    }
}

/// The neighbour tile coordinate at a unit offset.
pub open spec fn nb_of(c: (i64, i64), dx: int, dy: int) -> (i64, i64) {
    (((c.0 + dx) as i64), ((c.1 + dy) as i64))
}

/// Whether a listing covers every in-range tile of the 3x3 block of
/// tiles around `c`.
pub open spec fn covers9(eval: Seq<(i64, i64)>, c: (i64, i64)) -> bool {
    forall|dx: int, dy: int|
        -1 <= dx <= 1 && -1 <= dy <= 1 && in_safe(nb_of(c, dx, dy)) ==> eval.contains(
            #[trigger] nb_of(c, dx, dy),
        )
}

/// Membership survives extending a listing.
pub proof fn lemma_contains_prefix(a: Seq<(i64, i64)>, b: Seq<(i64, i64)>, x: (i64, i64))
    requires
        a.is_prefix_of(b),
        a.contains(x),
    ensures
        b.contains(x),
{
    let k = choose|k: int| 0 <= k < a.len() && a[k] == x;
    assert(b[k] == x);
}

/// Adjacent cells sit in the same or an adjacent tile column.
pub proof fn lemma_div_adjacent(a: int, b: int)
    requires
        a - 1 <= b <= a + 1,
    ensures
        a / 64 - 1 <= b / 64 <= a / 64 + 1,
{
    vstd::arithmetic::div_mod::lemma_fundamental_div_mod(a, 64);
    let k = a / 64;
    let r = a % 64;
    if b == a - 1 {
        if r == 0 {
            vstd::arithmetic::div_mod::lemma_fundamental_div_mod_converse(b, 64, k - 1, 63);
        } else {
            vstd::arithmetic::div_mod::lemma_fundamental_div_mod_converse(b, 64, k, r - 1);
        }
    } else if b == a {
    } else {
        if r == 63 {
            vstd::arithmetic::div_mod::lemma_fundamental_div_mod_converse(b, 64, k + 1, 0);
        } else {
            vstd::arithmetic::div_mod::lemma_fundamental_div_mod_converse(b, 64, k, r + 1);
        }
    }
}

/// The live cells of a tile at world corner `(x, y)`, listed in bit order
/// over the first `j` of its 4096 positions.
pub open spec fn chunk_seq(ch: BitChunk, x: i64, y: i64, j: int) -> Seq<(i64, i64)>
    decreases j,
{
    if j <= 0 {
        Seq::empty()
    } else {
        let prev = chunk_seq(ch, x, y, j - 1);
        if ch.cell((j - 1) % 64, (j - 1) / 64) {
            prev.push((((x + (j - 1) % 64) as i64), ((y + (j - 1) / 64) as i64)))
        } else {
            prev
        }
    }
}

/// The tile listing holds exactly the tile's live cells below position
/// `j`, each once, all inside the tile square.
pub proof fn lemma_chunk_seq_props_public(ch: BitChunk, x: i64, y: i64, j: int)
    requires
        0 <= j <= 4096,
        x as int + 63 <= i64::MAX,
        y as int + 63 <= i64::MAX,
    ensures
        crate::node::no_dups(chunk_seq(ch, x, y, j)),
        forall|p: (i64, i64)|
            chunk_seq(ch, x, y, j).contains(p) <==> (0 <= p.0 - x < 64 && 0 <= p.1 - y < 64 && (p.1
                - y) * 64 + (p.0 - x) < j && ch.cell(p.0 - x, p.1 - y)),
        forall|k: int|
            0 <= k < chunk_seq(ch, x, y, j).len() ==> crate::hashlife::in_square(
                #[trigger] chunk_seq(ch, x, y, j)[k],
                x as int,
                y as int,
                64,
            ),
    decreases j,
{
    if j > 0 {
        lemma_chunk_seq_props_public(ch, x, y, j - 1);
        let prev = chunk_seq(ch, x, y, j - 1);
        let cur = chunk_seq(ch, x, y, j);
        if ch.cell((j - 1) % 64, (j - 1) / 64) {
            let q = (((x + (j - 1) % 64) as i64), ((y + (j - 1) / 64) as i64));
            assert(0 <= (j - 1) % 64 < 64 && 0 <= (j - 1) / 64 < 64);
            assert(q.0 - x == (j - 1) % 64 && q.1 - y == (j - 1) / 64);
            assert((q.1 - y) * 64 + (q.0 - x) == j - 1);
            assert(cur =~= prev.push(q));
            assert forall|p: (i64, i64)| cur.contains(p) == (prev.contains(p) || p == q) by {
                if cur.contains(p) {
                    let k = choose|k: int| 0 <= k < cur.len() && cur[k] == p;
                    if k < prev.len() {
                        assert(prev[k] == p);
                    }
                }
                if prev.contains(p) {
                    let k = choose|k: int| 0 <= k < prev.len() && prev[k] == p;
                    assert(cur[k] == p);
                }
                if p == q {
                    assert(cur[prev.len() as int] == q);
                }
            }
            assert forall|p: (i64, i64)|
                cur.contains(p) == (0 <= p.0 - x < 64 && 0 <= p.1 - y < 64 && (p.1 - y) * 64 + (p.0
                    - x) < j && ch.cell(p.0 - x, p.1 - y)) by {
                if p == q {
                    assert((p.1 - y) * 64 + (p.0 - x) == j - 1 < j);
                }
            }
            assert forall|i1: int, i2: int| 0 <= i1 < i2 < cur.len() implies cur[i1] != cur[i2] by {
                if i2 == cur.len() - 1 {
                    assert(cur[i2] == q);
                    assert(cur[i1] == prev[i1]);
                    assert(prev.contains(prev[i1]));
                    if prev[i1] == q {
                        assert((q.1 - y) * 64 + (q.0 - x) < j - 1);
                    }
                } else {
                    assert(cur[i1] == prev[i1] && cur[i2] == prev[i2]);
                }
            }
        } else {
            assert(cur =~= prev);
            assert forall|p: (i64, i64)|
                cur.contains(p) == (0 <= p.0 - x < 64 && 0 <= p.1 - y < 64 && (p.1 - y) * 64 + (p.0
                    - x) < j && ch.cell(p.0 - x, p.1 - y)) by {
                if 0 <= p.0 - x < 64 && 0 <= p.1 - y < 64 && (p.1 - y) * 64 + (p.0 - x) < j
                    && ch.cell(p.0 - x, p.1 - y) {
                    assert((p.1 - y) * 64 + (p.0 - x) != j - 1);
                }
            }
        }
    }
}

/// Lists the live cells of one tile at its world corner.
pub fn export_chunk_public(ch: &BitChunk, x: i64, y: i64) -> (r: Vec<(i64, i64)>)
    requires
        x as int + 63 <= i64::MAX,
        y as int + 63 <= i64::MAX,
    ensures
        r@ == chunk_seq(*ch, x, y, 4096),
{
    let mut out: Vec<(i64, i64)> = Vec::new();
    let mut j: usize = 0;
    while j < 4096
        invariant
            0 <= j <= 4096,
            x as int + 63 <= i64::MAX,
            y as int + 63 <= i64::MAX,
            out@ =~= chunk_seq(*ch, x, y, j as int),
        decreases 4096 - j,
    {
        let lx = (j % 64) as i32;
        let ly = (j / 64) as i32;
        if ch.get(lx, ly) {
            let px: i64 = x + ((j % 64) as i64);
            let py: i64 = y + ((j / 64) as i64);
            out.push((px, py));
            proof {
                let ji = j as int;
                assert(px == ((x + ji % 64) as i64) && py == ((y + ji / 64) as i64));
                assert(chunk_seq(*ch, x, y, ji + 1) =~= chunk_seq(*ch, x, y, ji).push((px, py)));
            }
        } else {
            proof {
                let ji = j as int;
                assert(chunk_seq(*ch, x, y, ji + 1) =~= chunk_seq(*ch, x, y, ji));
            }
        }
        j = j + 1;
    }
    out
}

impl SparseLife {
    /// Lists every live cell, in no particular order and without
    /// duplicates.
    pub fn export(&self) -> (r: Vec<(i64, i64)>)
        requires
            self.wf(),
        ensures
            crate::node::no_dups(r@),
            forall|p: (i64, i64)|
                r@.contains(p) <==> self.scells().contains((p.0 as int, p.1 as int)),
    {
        let mut out: Vec<(i64, i64)> = Vec::new();
        let mut i: usize = 0;
        while i < self.blocks.len()
            invariant
                self.wf(),
                0 <= i <= self.blocks@.len(),
                crate::node::no_dups(out@),
                forall|p: (i64, i64)|
                    out@.contains(p) <==> (exists|m: int|
                        0 <= m < i && entry_shows(#[trigger] self.blocks@[m], p)),
                forall|k: int| #![trigger out@[k]]
                    0 <= k < out@.len() ==> (exists|m: int|
                        0 <= m < i && entry_holds_point(#[trigger] self.blocks@[m], out@[k])),
            decreases self.blocks@.len() - i,
        {
            let e = self.blocks[i];
            proof {
                assert(in_safe(e.0));
            }
            let bx: i64 = e.0.0 * 64;
            let by: i64 = e.0.1 * 64;
            let mut part = export_chunk_public(&e.1, bx, by);
            let ghost before = out@;
            let ghost parts = part@;
            out.append(&mut part);
            proof {
                let iv = i as int;
                lemma_chunk_seq_props_public(e.1, bx, by, 4096);
                assert(out@ =~= before + parts);
                lemma_blocks_unique(*self);
                assert forall|p: (i64, i64)|
                    out@.contains(p) == (exists|m: int|
                        0 <= m < iv + 1 && entry_shows(#[trigger] self.blocks@[m], p)) by {
                    crate::hashlife::lemma_concat_contains(before, parts, p);
                    if parts.contains(p) {
                        vstd::arithmetic::div_mod::lemma_fundamental_div_mod_converse(
                            p.0 as int,
                            64,
                            e.0.0 as int,
                            p.0 - bx,
                        );
                        vstd::arithmetic::div_mod::lemma_fundamental_div_mod_converse(
                            p.1 as int,
                            64,
                            e.0.1 as int,
                            p.1 - by,
                        );
                        assert(entry_shows(self.blocks@[iv], p));
                    }
                    if before.contains(p) {
                        let m = choose|m: int|
                            0 <= m < iv && entry_shows(#[trigger] self.blocks@[m], p);
                        assert(entry_shows(self.blocks@[m], p));
                    }
                    if exists|m: int| 0 <= m < iv + 1 && entry_shows(#[trigger] self.blocks@[m], p) {
                        let m = choose|m: int|
                            0 <= m < iv + 1 && entry_shows(#[trigger] self.blocks@[m], p);
                        if m == iv {
                            vstd::arithmetic::div_mod::lemma_fundamental_div_mod(p.0 as int, 64);
                            vstd::arithmetic::div_mod::lemma_fundamental_div_mod(p.1 as int, 64);
                            assert(parts.contains(p));
                        } else {
                            assert(before.contains(p));
                        }
                    }
                }
                assert forall|i1: int, i2: int|
                    0 <= i1 < i2 < out@.len() implies out@[i1] != out@[i2] by {
                    if i2 >= before.len() {
                        if i1 < before.len() {
                            assert(out@[i1] == before[i1]);
                            assert(out@[i2] == parts[i2 - before.len()]);
                            assert(before.contains(before[i1]));
                            let m = choose|m: int|
                                0 <= m < iv && entry_holds_point(
                                    #[trigger] self.blocks@[m],
                                    before[i1],
                                );
                            assert(crate::hashlife::in_square(
                                parts[i2 - before.len()],
                                bx as int,
                                by as int,
                                64,
                            ));
                            if before[i1] == out@[i2] {
                                vstd::arithmetic::div_mod::lemma_fundamental_div_mod_converse(
                                    before[i1].0 as int,
                                    64,
                                    e.0.0 as int,
                                    before[i1].0 - bx,
                                );
                                vstd::arithmetic::div_mod::lemma_fundamental_div_mod_converse(
                                    before[i1].1 as int,
                                    64,
                                    e.0.1 as int,
                                    before[i1].1 - by,
                                );
                            }
                        } else {
                            assert(out@[i1] == parts[i1 - before.len()]);
                            assert(out@[i2] == parts[i2 - before.len()]);
                        }
                    } else {
                        assert(out@[i1] == before[i1] && out@[i2] == before[i2]);
                    }
                }
                assert forall|k: int| #![trigger out@[k]]
                    0 <= k < out@.len() implies (exists|m: int|
                        0 <= m < iv + 1 && entry_holds_point(
                            #[trigger] self.blocks@[m],
                            out@[k],
                        )) by {
                    if k < before.len() {
                        assert(out@[k] == before[k]);
                        let m = choose|m: int|
                            0 <= m < iv && entry_holds_point(#[trigger] self.blocks@[m], before[k]);
                        assert(entry_holds_point(self.blocks@[m], out@[k]));
                    } else {
                        assert(out@[k] == parts[k - before.len()]);
                        assert(crate::hashlife::in_square(out@[k], bx as int, by as int, 64));
                        vstd::arithmetic::div_mod::lemma_fundamental_div_mod_converse(
                            out@[k].0 as int,
                            64,
                            e.0.0 as int,
                            out@[k].0 - bx,
                        );
                        vstd::arithmetic::div_mod::lemma_fundamental_div_mod_converse(
                            out@[k].1 as int,
                            64,
                            e.0.1 as int,
                            out@[k].1 - by,
                        );
                        assert(entry_holds_point(self.blocks@[iv], out@[k]));
                    }
                }
            }
            i = i + 1;
        }
        proof {
            assert forall|p: (i64, i64)|
                out@.contains(p) == self.scells().contains((p.0 as int, p.1 as int)) by {
                if out@.contains(p) {
                    let m = choose|m: int|
                        0 <= m < self.blocks@.len() && entry_shows(#[trigger] self.blocks@[m], p);
                    lemma_blocks_unique(*self);
                    lemma_find_block_present(self.blocks@, m);
                }
                if self.scells().contains((p.0 as int, p.1 as int)) {
                    let pb = ((p.0 as int) / 64, (p.1 as int) / 64);
                    lemma_find_block_to_entry(self.blocks@, pb);
                    let m = choose|m: int|
                        0 <= m < self.blocks@.len() && (#[trigger] self.blocks@[m]).0.0 == pb.0
                            && self.blocks@[m].0.1 == pb.1 && self.blocks@[m].1 == find_block(
                            self.blocks@,
                            pb,
                        )->Some_0;
                    assert(entry_shows(self.blocks@[m], p));
                }
            }
        }
        out
    }
}

/// Whether a tile entry shows the world cell `p` as live.
pub open spec fn entry_shows(e: ((i64, i64), BitChunk), p: (i64, i64)) -> bool {
    e.0.0 as int == (p.0 as int) / 64 && e.0.1 as int == (p.1 as int) / 64 && e.1.cell(
        (p.0 as int) % 64,
        (p.1 as int) % 64,
    )
}

/// Whether the world cell `p` lies in the square of tile entry `e`.
pub open spec fn entry_holds_point(e: ((i64, i64), BitChunk), p: (i64, i64)) -> bool {
    crate::hashlife::in_square(p, e.0.0 as int * 64, e.0.1 as int * 64, 64)
}

} // verus!
