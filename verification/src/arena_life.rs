//! The arena block engine: the same 64x64 tiles as the sparse engine, but
//! stored in a generational arena; each tile caches the arena slots of its
//! eight neighbours so the step reads borders without map lookups, and
//! growth is discovered through per-tile growth flags.

use vstd::prelude::*;

use std::collections::HashMap;

use crate::chunk::BitChunk;
use crate::sparse::enc_coord;
use crate::sparse::in_safe;
use crate::sparse::lemma_enc_injective;
use crate::sparse::split_coords;
use crate::sparse::cell_in_safe;
use crate::sparse::SAFE_COORD as SAFE_LIMIT;

verus! {

broadcast use vstd::std_specs::hash::group_hash_axioms;

/// One stored tile: its coordinate, its cells, the cached arena slots of
/// its eight neighbours (N, S, W, E, NW, NE, SW, SE), and whether any
/// cell is live.
#[derive(Clone, Copy)]
pub struct Block {
    pub coord: (i64, i64),
    pub rows: BitChunk,
    pub neighbors: [Option<u32>; 8],
    pub alive: bool,
}

/// The slot-keyed storage of an arena.
#[verifier::external_type_specification]
#[verifier::external_body]
#[verifier::reject_recursive_types(T)]
pub struct ExArena<T>(thunderdome::Arena<T>);

/// What the arena holds, as a map from occupied slot to stored tile.
pub uninterp spec fn arena_slots(a: thunderdome::Arena<Block>) -> Map<u32, Block>;

/// A fresh arena holds nothing.
/// Relies on thunderdome's `Arena::new`, which starts with empty storage.
#[verifier::external_body]
fn arena_new() -> (r: thunderdome::Arena<Block>)
    ensures
        forall|s: u32| !(#[trigger] arena_slots(r).contains_key(s)),
{
    thunderdome::Arena::new()
}

/// Inserting stores the value at a previously free slot.
/// Relies on thunderdome's `Arena::insert`, which fills a free slot (or
/// appends a new one) and returns its index; `Index::slot` is that slot.
#[verifier::external_body]
fn arena_insert(a: &mut thunderdome::Arena<Block>, b: Block) -> (s: u32)
    ensures
        !arena_slots(*old(a)).contains_key(s),
        arena_slots(*final(a)) =~= arena_slots(*old(a)).insert(s, b),
{
    a.insert(b).slot()
}

/// Reads the tile at a slot, if the slot is occupied.
/// Relies on thunderdome's `Arena::get_by_slot`.
#[verifier::external_body]
fn arena_get(a: &thunderdome::Arena<Block>, s: u32) -> (r: Option<Block>)
    ensures
        r == if arena_slots(*a).contains_key(s) {
            Option::Some(arena_slots(*a)[s])
        } else {
            Option::<Block>::None
        },
{
    a.get_by_slot(s).map(|e| *e.1)
}

/// Overwrites the tile at an occupied slot; a free slot is left alone.
/// Relies on thunderdome's `Arena::get_by_slot_mut`.
#[verifier::external_body]
fn arena_set(a: &mut thunderdome::Arena<Block>, s: u32, b: Block)
    ensures
        arena_slots(*final(a)) =~= if arena_slots(*old(a)).contains_key(s) {
            arena_slots(*old(a)).insert(s, b)
        } else {
            arena_slots(*old(a))
        },
{
    if let Some((_, slot)) = a.get_by_slot_mut(s) {
        *slot = b;
    }
}

/// Drops every tile.
/// Relies on thunderdome's `Arena::clear`.
#[verifier::external_body]
fn arena_drain(a: &mut thunderdome::Arena<Block>)
    ensures
        forall|s: u32| !(#[trigger] arena_slots(*final(a)).contains_key(s)),
{
    a.clear()
}

/// Lists the occupied slots with their tiles, each exactly once, in an
/// unspecified order.
/// Relies on thunderdome's `Arena::iter`, which visits each occupied slot
/// once.
#[verifier::external_body]
fn arena_pairs(a: &thunderdome::Arena<Block>) -> (r: Vec<(u32, Block)>)
    ensures
        forall|k: int|
            0 <= k < r@.len() ==> arena_slots(*a).contains_key((#[trigger] r@[k]).0)
                && arena_slots(*a)[r@[k].0] == r@[k].1,
        forall|s: u32|
            arena_slots(*a).contains_key(s) ==> exists|k: int|
                0 <= k < r@.len() && (#[trigger] r@[k]).0 == s,
        forall|i: int, j: int| 0 <= i < j < r@.len() ==> r@[i].0 != r@[j].0,
{
    a.iter().map(|(idx, b)| (idx.slot(), *b)).collect()
}

/// The arena engine.
pub struct ArenaLife {
    pub arena: thunderdome::Arena<Block>,
    pub lookup: HashMap<u128, u32>,
    pub generation: u64,
}

impl ArenaLife {
    /// Engine invariant: the coordinate map and the arena agree, one slot
    /// per coordinate, coordinates in the accepted range.
    pub open spec fn wf(self) -> bool {
        &&& forall|k: u128|
            self.lookup@.contains_key(k) ==> {
                &&& arena_slots(self.arena).contains_key(#[trigger] self.lookup@[k])
                &&& enc_coord(arena_slots(self.arena)[self.lookup@[k]].coord) == k
            }
        &&& forall|s: u32|
            arena_slots(self.arena).contains_key(s) ==> {
                &&& self.lookup@.contains_key(
                    enc_coord(#[trigger] arena_slots(self.arena)[s].coord),
                )
                &&& self.lookup@[enc_coord(arena_slots(self.arena)[s].coord)] == s
                &&& in_safe(arena_slots(self.arena)[s].coord)
            }
    }

    /// The set of live world cells.
    pub open spec fn acells(self) -> Set<(int, int)> {
        Set::new(
            |p: (int, int)|
                {
                    let k = enc_tile(p.0 / 64, p.1 / 64);
                    &&& cell_in_safe(p.0, p.1)
                    &&& self.lookup@.contains_key(k)
                    &&& arena_slots(self.arena).contains_key(self.lookup@[k])
                    &&& arena_slots(self.arena)[self.lookup@[k]].rows.cell(p.0 % 64, p.1 % 64)
                },
        )
    }

    /// A fresh, empty engine.
    pub fn new() -> (r: Self)
        ensures
            r.wf(),
            r.acells() =~= Set::<(int, int)>::empty(),
            r.generation == 0,
    {
        let r = ArenaLife { arena: arena_new(), lookup: HashMap::new(), generation: 0 };
        proof {
            assert(r.acells() =~= Set::<(int, int)>::empty());
        }
        r
    }

    /// The slot of the tile at coordinate `c`, if present.
    fn slot_of(&self, c: (i64, i64)) -> (r: Option<u32>)
        requires
            self.wf(),
        ensures
            match r {
                Option::Some(s) => self.lookup@.contains_key(enc_coord(c)) && self.lookup@[enc_coord(c)]
                    == s && arena_slots(self.arena).contains_key(s),
                Option::None => !self.lookup@.contains_key(enc_coord(c)),
            },
    {
        let key = tile_key(c);
        match self.lookup.get(&key) {
            Some(sref) => Some(*sref),
            None => None,
        }
    }

    /// Whether the world cell `(x, y)` is live.
    pub fn get_cell(&self, x: i64, y: i64) -> (r: bool)
        requires
            self.wf(),
        ensures
            r == self.acells().contains((x as int, y as int)),
    {
        let (bc, lx, ly) = split_coords(x, y);
        proof {
            assert(enc_tile((x as int) / 64, (y as int) / 64) == enc_coord(bc));
        }
        match self.slot_of(bc) {
            Some(s) => {
                proof {
                    lemma_enc_injective(arena_slots(self.arena)[s].coord, bc);
                    assert(in_safe(bc));
                    assert(cell_in_safe(x as int, y as int));
                }
                match arena_get(&self.arena, s) {
                    Some(b) => b.rows.get(lx as i32, ly as i32),
                    None => {
                        proof {
                            assert(false);
                        }
                        false
                    },
                }
            },
            None => false,
        }
    }

    /// Empties the engine.
    pub fn clear(&mut self)
        ensures
            final(self).wf(),
            final(self).acells() =~= Set::<(int, int)>::empty(),
            final(self).generation == 0,
    {
        arena_drain(&mut self.arena);
        self.lookup = HashMap::new();
        self.generation = 0;
        proof {
            assert(final(self).acells() =~= Set::<(int, int)>::empty());
        }
    }
}

/// Packs a tile coordinate given as mathematical integers, for the cell
/// set; matches `enc_coord` on coordinates in range.
pub open spec fn enc_tile(bx: int, by: int) -> u128 {
    enc_coord((bx as i64, by as i64))
}

/// Packs a tile coordinate into one map key.
fn tile_key(c: (i64, i64)) -> (r: u128)
    ensures
        r == enc_coord(c),
{
    (((c.0 as u64) as u128) << 64u128) | ((c.1 as u64) as u128)
}


/// Two engine states with one coordinate map and tiles of equal cells
/// show the same live set.
proof fn lemma_acells_same_rows(a: ArenaLife, b: ArenaLife)
    requires
        b.lookup@ == a.lookup@,
        arena_slots(b.arena).dom() =~= arena_slots(a.arena).dom(),
        forall|s: u32|
            arena_slots(a.arena).contains_key(s) ==> (#[trigger] arena_slots(b.arena)[s]).rows
                == arena_slots(a.arena)[s].rows,
    ensures
        b.acells() =~= a.acells(),
{
    assert forall|p: (int, int)| b.acells().contains(p) == a.acells().contains(p) by {
        let k = enc_tile(p.0 / 64, p.1 / 64);
        if a.lookup@.contains_key(k) && arena_slots(a.arena).contains_key(a.lookup@[k]) {
            assert(arena_slots(b.arena)[a.lookup@[k]].rows == arena_slots(a.arena)[a.lookup@[k]].rows);
        }
    }
}

impl ArenaLife {
    /// Links a freshly spawned tile with its present neighbours in both
    /// directions; only the cached slot numbers change.
    fn link(&mut self, c: (i64, i64), s: u32)
        requires
            old(self).wf(),
            in_safe(c),
            arena_slots(old(self).arena).contains_key(s),
        ensures
            final(self).wf(),
            final(self).lookup@ == old(self).lookup@,
            final(self).generation == old(self).generation,
            final(self).acells() =~= old(self).acells(),
            arena_slots(final(self).arena).dom() =~= arena_slots(old(self).arena).dom(),
            forall|s2: u32|
                arena_slots(old(self).arena).contains_key(s2) ==> (#[trigger] arena_slots(
                    final(self).arena,
                )[s2]).rows == arena_slots(old(self).arena)[s2].rows && arena_slots(
                    final(self).arena,
                )[s2].coord == arena_slots(old(self).arena)[s2].coord,
    {
        let ghost pre = *self;
        let mut me = match arena_get(&self.arena, s) {
            Some(b) => b,
            None => {
                proof {
                    assert(false);
                }
                return ;
            },
        };
        let mut dir: usize = 0;
        let offs: [(i64, i64); 8] = [
            (0, -1),
            (0, 1),
            (-1, 0),
            (1, 0),
            (-1, -1),
            (1, -1),
            (-1, 1),
            (1, 1),
        ];
        while dir < 8
            invariant
                self.wf(),
                self.lookup@ == pre.lookup@,
                self.generation == pre.generation,
                in_safe(c),
                arena_slots(self.arena).dom() =~= arena_slots(pre.arena).dom(),
                forall|s2: u32|
                    arena_slots(pre.arena).contains_key(s2) ==> (#[trigger] arena_slots(
                        self.arena,
                    )[s2]).rows == arena_slots(pre.arena)[s2].rows && arena_slots(
                        self.arena,
                    )[s2].coord == arena_slots(pre.arena)[s2].coord,
                arena_slots(self.arena).contains_key(s),
                me.coord == arena_slots(self.arena)[s].coord,
                me.rows == arena_slots(self.arena)[s].rows,
                me.alive == arena_slots(self.arena)[s].alive,
            decreases 8 - dir,
        {
            let d = offs[dir];
            let ncx: i128 = (c.0 as i128) + (d.0 as i128);
            let ncy: i128 = (c.1 as i128) + (d.1 as i128);
            if -(SAFE_LIMIT as i128) <= ncx && ncx < SAFE_LIMIT as i128 && -(SAFE_LIMIT as i128)
                <= ncy && ncy < SAFE_LIMIT as i128 {
                let nc = (ncx as i64, ncy as i64);
                match self.slot_of(nc) {
                    Some(ns) => {
                        let ghost st = *self;
                        me.neighbors[dir] = Some(ns);
                        arena_set(&mut self.arena, s, me);
                        let mut nb = match arena_get(&self.arena, ns) {
                            Some(b) => b,
                            None => {
                                proof {
                                    assert(false);
                                }
                                return ;
                            },
                        };
                        let opp: usize = if dir == 0 {
                            1
                        } else if dir == 1 {
                            0
                        } else if dir == 2 {
                            3
                        } else if dir == 3 {
                            2
                        } else if dir == 4 {
                            7
                        } else if dir == 5 {
                            6
                        } else if dir == 6 {
                            5
                        } else {
                            4
                        };
                        nb.neighbors[opp] = Some(s);
                        arena_set(&mut self.arena, ns, nb);
                        proof {
                            assert(arena_slots(self.arena).dom() =~= arena_slots(st.arena).dom());
                        }
                    },
                    None => {},
                }
            }
            dir = dir + 1;
        }
        proof {
            lemma_acells_same_rows(pre, *self);
        }
    }

    /// Returns the slot of the tile at `c`, spawning an all-dead tile and
    /// linking it to its neighbours when absent.
    fn spawn_block(&mut self, c: (i64, i64)) -> (s: u32)
        requires
            old(self).wf(),
            in_safe(c),
        ensures
            final(self).wf(),
            final(self).generation == old(self).generation,
            final(self).acells() =~= old(self).acells(),
            final(self).lookup@.contains_key(enc_coord(c)),
            final(self).lookup@[enc_coord(c)] == s,
            arena_slots(final(self).arena).contains_key(s),
            arena_slots(final(self).arena)[s].coord == c,
            forall|k: u128|
                old(self).lookup@.contains_key(k) ==> final(self).lookup@.contains_key(k),
    {
        match self.slot_of(c) {
            Some(s) => {
                proof {
                    assert(arena_slots(self.arena)[self.lookup@[enc_coord(c)]].coord == c) by {
                        lemma_enc_injective(
                            arena_slots(self.arena)[self.lookup@[enc_coord(c)]].coord,
                            c,
                        );
                    }
                }
                s
            },
            None => {
                let ghost pre = *self;
                let b = Block {
                    coord: c,
                    rows: BitChunk::new(),
                    neighbors: [None, None, None, None, None, None, None, None],
                    alive: false,
                };
                let s = arena_insert(&mut self.arena, b);
                let key = tile_key(c);
                self.lookup.insert(key, s);
                proof {
                    assert forall|k: u128|
                        self.lookup@.contains_key(k) implies arena_slots(self.arena).contains_key(
                        #[trigger] self.lookup@[k],
                    ) && enc_coord(arena_slots(self.arena)[self.lookup@[k]].coord) == k by {
                        if k != key {
                            assert(pre.lookup@.contains_key(k));
                            assert(self.lookup@[k] == pre.lookup@[k]);
                        }
                    }
                    assert forall|s2: u32|
                        arena_slots(self.arena).contains_key(s2) implies self.lookup@.contains_key(
                        enc_coord(#[trigger] arena_slots(self.arena)[s2].coord),
                    ) && self.lookup@[enc_coord(arena_slots(self.arena)[s2].coord)] == s2
                        && in_safe(arena_slots(self.arena)[s2].coord) by {
                        if s2 != s {
                            assert(arena_slots(pre.arena).contains_key(s2));
                            if enc_coord(arena_slots(self.arena)[s2].coord) == key {
                                lemma_enc_injective(arena_slots(self.arena)[s2].coord, c);
                                assert(pre.lookup@.contains_key(key));
                            }
                        }
                    }
                    assert forall|p: (int, int)|
                        self.acells().contains(p) == pre.acells().contains(p) by {
                        let k = enc_tile(p.0 / 64, p.1 / 64);
                        if k == key {
                            if cell_in_safe(p.0, p.1) {
                                assert(self.lookup@[k] == s);
                                assert(!arena_slots(self.arena)[s].rows.cell(p.0 % 64, p.1 % 64));
                                if pre.lookup@.contains_key(k) {
                                    assert(false);
                                }
                            }
                        } else {
                            if pre.lookup@.contains_key(k) {
                                assert(self.lookup@[k] == pre.lookup@[k]);
                                assert(arena_slots(pre.arena).contains_key(pre.lookup@[k]));
                                assert(pre.lookup@[k] != s);
                            }
                        }
                    }
                }
                let ghost mid = *self;
                self.link(c, s);
                proof {
                    assert(arena_slots(final(self).arena)[s].coord == arena_slots(mid.arena)[s].coord);
                }
                s
            },
        }
    }

    /// Writes one cell; every signed 64-bit coordinate is accepted.
    pub fn set_cell(&mut self, x: i64, y: i64, alive: bool)
        requires
            old(self).wf(),
        ensures
            final(self).wf(),
            final(self).generation == old(self).generation,
            final(self).acells() =~= (if alive {
                old(self).acells().insert((x as int, y as int))
            } else {
                old(self).acells().remove((x as int, y as int))
            }),
    {
        let (bc, lx, ly) = split_coords(x, y);
        proof {
            crate::sparse::lemma_i64_cell_in_safe(x, y);
        }
        let s = self.spawn_block(bc);
        let ghost mid = *self;
        let mut b = match arena_get(&self.arena, s) {
            Some(b) => b,
            None => {
                proof {
                    assert(false);
                }
                return ;
            },
        };
        b.rows.set(lx as i32, ly as i32, alive);
        if alive {
            b.alive = true;
        }
        arena_set(&mut self.arena, s, b);
        proof {
            crate::sparse::lemma_split_correct(x as int, y as int, bc, lx as int, ly as int);
            assert forall|k: u128|
                self.lookup@.contains_key(k) implies arena_slots(self.arena).contains_key(
                #[trigger] self.lookup@[k],
            ) && enc_coord(arena_slots(self.arena)[self.lookup@[k]].coord) == k by {
                if self.lookup@[k] == s {
                    assert(arena_slots(self.arena)[s].coord == arena_slots(mid.arena)[s].coord);
                }
            }
            assert forall|s2: u32|
                arena_slots(self.arena).contains_key(s2) implies self.lookup@.contains_key(
                enc_coord(#[trigger] arena_slots(self.arena)[s2].coord),
            ) && self.lookup@[enc_coord(arena_slots(self.arena)[s2].coord)] == s2 && in_safe(
                arena_slots(self.arena)[s2].coord,
            ) by {
                if s2 == s {
                    assert(arena_slots(self.arena)[s].coord == arena_slots(mid.arena)[s].coord);
                }
            }
            assert forall|p: (int, int)|
                self.acells().contains(p) == (if alive {
                    mid.acells().insert((x as int, y as int))
                } else {
                    mid.acells().remove((x as int, y as int))
                }).contains(p) by {
                let k = enc_tile(p.0 / 64, p.1 / 64);
                vstd::arithmetic::div_mod::lemma_fundamental_div_mod(p.0, 64);
                vstd::arithmetic::div_mod::lemma_fundamental_div_mod(p.1, 64);
                if cell_in_safe(p.0, p.1) {
                    if k == enc_coord(bc) {
                        lemma_enc_injective(((p.0 / 64) as i64, (p.1 / 64) as i64), bc);
                        assert(self.lookup@[k] == s);
                        assert((p.0 % 64 == lx && p.1 % 64 == ly && p.0 / 64 == bc.0 as int && p.1
                            / 64 == bc.1 as int) <==> p == (x as int, y as int));
                    } else {
                        assert(p != (x as int, y as int));
                        if self.lookup@.contains_key(k) {
                            assert(self.lookup@[k] != s);
                        }
                    }
                } else {
                    assert(p != (x as int, y as int));
                }
            }
        }
    }

    /// Writes many cells to one value, one write per coordinate.
    pub fn set_cells(&mut self, coords: &Vec<(i64, i64)>, alive: bool)
        requires
            old(self).wf(),
        ensures
            final(self).wf(),
            final(self).generation == old(self).generation,
            alive ==> final(self).acells() =~= old(self).acells().union(
                crate::hashlife::coord_set(coords@),
            ),
            !alive ==> final(self).acells() =~= old(self).acells().difference(
                crate::hashlife::coord_set(coords@),
            ),
    {
        let ghost pre = *self;
        let mut k: usize = 0;
        while k < coords.len()
            invariant
                pre.wf(),
                self.wf(),
                self.generation == pre.generation,
                0 <= k <= coords@.len(),
                alive ==> self.acells() =~= pre.acells().union(
                    crate::hashlife::coord_set(coords@.take(k as int)),
                ),
                !alive ==> self.acells() =~= pre.acells().difference(
                    crate::hashlife::coord_set(coords@.take(k as int)),
                ),
            decreases coords@.len() - k,
        {
            let (x, y) = coords[k];
            let ghost before = *self;
            self.set_cell(x, y, alive);
            proof {
                let p = (x as int, y as int);
                crate::hashlife::lemma_coord_set_take(coords@, k as int);
                let prev = crate::hashlife::coord_set(coords@.take(k as int));
                let cur = crate::hashlife::coord_set(coords@.take(k as int + 1));
                assert(cur == prev.insert(p));
                if alive {
                    assert(self.acells() =~= before.acells().insert(p));
                    assert(self.acells() =~= pre.acells().union(cur));
                } else {
                    assert(self.acells() =~= before.acells().remove(p));
                    assert(self.acells() =~= pre.acells().difference(cur));
                }
            }
            k = k + 1;
        }
        proof {
            assert(coords@.take(coords@.len() as int) =~= coords@);
        }
    }

    /// Replaces the whole universe by the given live set.
    pub fn import(&mut self, alive_cells: &Vec<(i64, i64)>)
        requires
            old(self).wf(),
        ensures
            final(self).wf(),
            final(self).generation == 0,
            final(self).acells() =~= crate::hashlife::coord_set(alive_cells@),
    {
        self.clear();
        let ghost cleared = *self;
        self.set_cells(alive_cells, true);
        proof {
            assert(cleared.acells().union(crate::hashlife::coord_set(alive_cells@))
                =~= crate::hashlife::coord_set(alive_cells@));
        }
    }

    /// Lists every live cell, in no particular order and without
    /// duplicates.
    pub fn export(&self) -> (r: Vec<(i64, i64)>)
        requires
            self.wf(),
        ensures
            crate::node::no_dups(r@),
            forall|p: (i64, i64)|
                r@.contains(p) <==> self.acells().contains((p.0 as int, p.1 as int)),
    {
        let pairs = arena_pairs(&self.arena);
        let mut out: Vec<(i64, i64)> = Vec::new();
        let mut i: usize = 0;
        while i < pairs.len()
            invariant
                self.wf(),
                0 <= i <= pairs@.len(),
                forall|k: int|
                    0 <= k < pairs@.len() ==> arena_slots(self.arena).contains_key(
                        (#[trigger] pairs@[k]).0,
                    ) && arena_slots(self.arena)[pairs@[k].0] == pairs@[k].1,
                forall|s: u32|
                    arena_slots(self.arena).contains_key(s) ==> exists|k: int|
                        0 <= k < pairs@.len() && (#[trigger] pairs@[k]).0 == s,
                forall|k1: int, k2: int|
                    0 <= k1 < k2 < pairs@.len() ==> pairs@[k1].0 != pairs@[k2].0,
                forall|p: (i64, i64)|
                    out@.contains(p) <==> (exists|m: int|
                        0 <= m < i && pair_shows(#[trigger] pairs@[m], p)),
                crate::node::no_dups(out@),
                forall|k: int| #![trigger out@[k]]
                    0 <= k < out@.len() ==> (exists|m: int|
                        0 <= m < i && pair_square(#[trigger] pairs@[m], out@[k])),
            decreases pairs@.len() - i,
        {
            let e = pairs[i];
            proof {
                assert(arena_slots(self.arena).contains_key(pairs@[i as int].0));
                assert(in_safe(e.1.coord));
            }
            let bx: i64 = e.1.coord.0 * 64;
            let by: i64 = e.1.coord.1 * 64;
            let mut part = crate::sparse::export_chunk_public(&e.1.rows, bx, by);
            let ghost before = out@;
            let ghost parts = part@;
            out.append(&mut part);
            proof {
                let iv = i as int;
                crate::sparse::lemma_chunk_seq_props_public(e.1.rows, bx, by, 4096);
                assert(out@ =~= before + parts);
                assert forall|p: (i64, i64)|
                    out@.contains(p) == (exists|m: int|
                        0 <= m < iv + 1 && pair_shows(#[trigger] pairs@[m], p)) by {
                    crate::hashlife::lemma_concat_contains(before, parts, p);
                    if parts.contains(p) {
                        vstd::arithmetic::div_mod::lemma_fundamental_div_mod_converse(
                            p.0 as int,
                            64,
                            e.1.coord.0 as int,
                            p.0 - bx,
                        );
                        vstd::arithmetic::div_mod::lemma_fundamental_div_mod_converse(
                            p.1 as int,
                            64,
                            e.1.coord.1 as int,
                            p.1 - by,
                        );
                        assert(pair_shows(pairs@[iv], p));
                    }
                    if exists|m: int| 0 <= m < iv + 1 && pair_shows(#[trigger] pairs@[m], p) {
                        let m = choose|m: int|
                            0 <= m < iv + 1 && pair_shows(#[trigger] pairs@[m], p);
                        if m == iv {
                            vstd::arithmetic::div_mod::lemma_fundamental_div_mod(p.0 as int, 64);
                            vstd::arithmetic::div_mod::lemma_fundamental_div_mod(p.1 as int, 64);
                            assert(parts.contains(p));
                        } else {
                            assert(before.contains(p));
                        }
                    }
                }
                assert forall|i1: int, i2: int|
                    0 <= i1 < i2 < out@.len() implies out@[i1] != out@[i2] by {
                    if i2 >= before.len() {
                        if i1 < before.len() {
                            assert(out@[i1] == before[i1]);
                            assert(out@[i2] == parts[i2 - before.len()]);
                            let m = choose|m: int|
                                0 <= m < iv && pair_square(#[trigger] pairs@[m], before[i1]);
                            assert(crate::hashlife::in_square(
                                parts[i2 - before.len()],
                                bx as int,
                                by as int,
                                64,
                            ));
                            if before[i1] == out@[i2] {
                                vstd::arithmetic::div_mod::lemma_fundamental_div_mod_converse(
                                    before[i1].0 as int,
                                    64,
                                    e.1.coord.0 as int,
                                    before[i1].0 - bx,
                                );
                                vstd::arithmetic::div_mod::lemma_fundamental_div_mod_converse(
                                    before[i1].1 as int,
                                    64,
                                    e.1.coord.1 as int,
                                    before[i1].1 - by,
                                );
                                assert(pairs@[m].1.coord.0 as int == before[i1].0 as int / 64
                                    && pairs@[m].1.coord.1 as int == before[i1].1 as int / 64) by {
                                    vstd::arithmetic::div_mod::lemma_fundamental_div_mod_converse(
                                        before[i1].0 as int,
                                        64,
                                        pairs@[m].1.coord.0 as int,
                                        before[i1].0 - pairs@[m].1.coord.0 as int * 64,
                                    );
                                    vstd::arithmetic::div_mod::lemma_fundamental_div_mod_converse(
                                        before[i1].1 as int,
                                        64,
                                        pairs@[m].1.coord.1 as int,
                                        before[i1].1 - pairs@[m].1.coord.1 as int * 64,
                                    );
                                }
                                assert(pairs@[m].1.coord == e.1.coord);
                                assert(pairs@[m].0 == self.lookup@[enc_coord(pairs@[m].1.coord)]);
                                assert(pairs@[iv].0 == self.lookup@[enc_coord(e.1.coord)]);
                                assert(pairs@[m].0 == pairs@[iv].0);
                                assert(false);
                            }
                        } else {
                            assert(out@[i1] == parts[i1 - before.len()]);
                            assert(out@[i2] == parts[i2 - before.len()]);
                        }
                    } else {
                        assert(out@[i1] == before[i1] && out@[i2] == before[i2]);
                    }
                }
                assert forall|k: int| #![trigger out@[k]]
                    0 <= k < out@.len() implies (exists|m: int|
                        0 <= m < iv + 1 && pair_square(#[trigger] pairs@[m], out@[k])) by {
                    if k < before.len() {
                        assert(out@[k] == before[k]);
                        let m = choose|m: int|
                            0 <= m < iv && pair_square(#[trigger] pairs@[m], before[k]);
                        assert(pair_square(pairs@[m], out@[k]));
                    } else {
                        assert(out@[k] == parts[k - before.len()]);
                        assert(crate::hashlife::in_square(out@[k], bx as int, by as int, 64));
                        assert(pair_square(pairs@[iv], out@[k]));
                    }
                }
            }
            i = i + 1;
        }
        proof {
            assert forall|p: (i64, i64)|
                out@.contains(p) == self.acells().contains((p.0 as int, p.1 as int)) by {
                if out@.contains(p) {
                    let m = choose|m: int|
                        0 <= m < pairs@.len() && pair_shows(#[trigger] pairs@[m], p);
                    let e = pairs@[m];
                    assert(arena_slots(self.arena)[e.0] == e.1);
                    assert(self.lookup@[enc_coord(e.1.coord)] == e.0);
                    assert(in_safe(e.1.coord));
                }
                if self.acells().contains((p.0 as int, p.1 as int)) {
                    let k = enc_tile((p.0 as int) / 64, (p.1 as int) / 64);
                    let s = self.lookup@[k];
                    let m = choose|m: int| 0 <= m < pairs@.len() && (#[trigger] pairs@[m]).0 == s;
                    assert(arena_slots(self.arena)[s].coord == ((p.0 as int / 64) as i64, (
                    p.1 as int / 64) as i64)) by {
                        lemma_enc_injective(
                            arena_slots(self.arena)[s].coord,
                            ((p.0 as int / 64) as i64, (p.1 as int / 64) as i64),
                        );
                    }
                    assert(pair_shows(pairs@[m], p));
                }
            }
        }
        out
    }

    /// Every live cell has machine-representable coordinates.
    pub proof fn lemma_cells_bounded(self)
        requires
            self.wf(),
        ensures
            forall|q: (int, int)|
                self.acells().contains(q) ==> i64::MIN <= q.0 <= i64::MAX && i64::MIN <= q.1
                    <= i64::MAX,
    {
        assert forall|q: (int, int)|
            self.acells().contains(q) implies i64::MIN <= q.0 <= i64::MAX && i64::MIN <= q.1
            <= i64::MAX by {
            assert(crate::sparse::cell_in_safe(q.0, q.1));
            vstd::arithmetic::div_mod::lemma_fundamental_div_mod(q.0, 64);
            vstd::arithmetic::div_mod::lemma_fundamental_div_mod(q.1, 64);
        }
    }

    /// Number of live cells: the size of the live set.
    pub fn population(&self) -> (r: u64)
        requires
            self.wf(),
        ensures
            self.acells().finite(),
            r == self.acells().len(),
    {
        let out = self.export();
        proof {
            self.lemma_cells_bounded();
            crate::laws::lemma_listing_counts(self.acells(), out@);
        }
        out.len() as u64
    }

    /// Advances the universe by `steps` generations and returns the
    /// number taken.  Whenever every intermediate generation stays on the
    /// signed 64-bit grid, the final live set is exactly the `steps`-fold
    /// successor of the initial one under B3/S23.
    pub fn step(&mut self, steps: u64) -> (r: u64)
        requires
            old(self).wf(),
            old(self).generation + steps <= u64::MAX,
        ensures
            final(self).wf(),
            r == steps,
            final(self).generation == old(self).generation + steps,
            steps == 0 ==> final(self).acells() =~= old(self).acells(),
            (forall|k: nat|
                k <= steps ==> crate::sparse::set_in_safe(
                    #[trigger] crate::life::life_steps(k, old(self).acells()),
                )) ==> final(self).acells() =~= crate::life::life_steps(
                steps as nat,
                old(self).acells(),
            ),
    {
        let ghost pre = *self;
        let ghost g0 = self.generation;
        let mut t: u64 = 0;
        while t < steps
            invariant
                self.wf(),
                0 <= t <= steps,
                self.generation == g0 + t,
                g0 + steps <= u64::MAX,
                (forall|k: nat|
                    k <= steps ==> crate::sparse::set_in_safe(
                        #[trigger] crate::life::life_steps(k, pre.acells()),
                    )) ==> self.acells() =~= crate::life::life_steps(t as nat, pre.acells()),
            decreases steps - t,
        {
            let ghost before = *self;
            self.step_once();
            proof {
                if forall|k: nat|
                    k <= steps ==> crate::sparse::set_in_safe(
                        #[trigger] crate::life::life_steps(k, pre.acells()),
                    ) {
                    assert(crate::sparse::set_in_safe(
                        crate::life::life_steps((t + 1) as nat, pre.acells()),
                    ));
                    assert(before.acells() == crate::life::life_steps(t as nat, pre.acells()));
                    crate::life::lemma_life_steps_snoc(pre.acells(), t as nat);
                    assert(crate::life::life_steps((t + 1) as nat, pre.acells())
                        == crate::life::life_next(before.acells()));
                    assert forall|p: (int, int)|
                        self.acells().contains(p) == crate::life::life_next(
                            before.acells(),
                        ).contains(p) by {
                        if crate::life::life_next(before.acells()).contains(p) {
                            assert(crate::life::life_steps((t + 1) as nat, pre.acells()).contains(
                                p,
                            ));
                            assert(crate::sparse::cell_in_safe(p.0, p.1));
                        }
                    }
                    assert(self.acells() =~= crate::life::life_steps(
                        (t + 1) as nat,
                        pre.acells(),
                    ));
                }
            }
            t = t + 1;
        }
        steps
    }

    /// One generation over the arena.  Tiles whose outward borders are
    /// live first spawn their missing neighbours, so births crossing into
    /// fresh tiles land in this same generation; then every tile is
    /// re-evaluated from the pre-step state through its cached neighbour
    /// slots and the results are applied in place.
    #[verifier::rlimit(100)]
    fn step_once(&mut self)
        requires
            old(self).wf(),
            old(self).generation < u64::MAX,
        ensures
            final(self).wf(),
            final(self).generation == old(self).generation + 1,
            forall|p: (int, int)|
                final(self).acells().contains(p) ==> crate::life::life_next(
                    old(self).acells(),
                ).contains(p),
            forall|p: (int, int)|
                (crate::life::life_next(old(self).acells()).contains(p)
                    && crate::sparse::cell_in_safe(p.0, p.1)) ==> final(self).acells().contains(p),
    {
        let ghost pre0 = *self;
        let seeds = arena_pairs(&self.arena);
        let mut gi: usize = 0;
        while gi < seeds.len()
            invariant
                pre0.wf(),
                self.wf(),
                self.generation == pre0.generation,
                self.acells() =~= pre0.acells(),
                0 <= gi <= seeds@.len(),
                forall|k: int|
                    0 <= k < seeds@.len() ==> arena_slots(pre0.arena).contains_key(
                        (#[trigger] seeds@[k]).0,
                    ) && arena_slots(pre0.arena)[seeds@[k].0] == seeds@[k].1,
                forall|kk: u128|
                    pre0.lookup@.contains_key(kk) ==> self.lookup@.contains_key(kk),
                forall|j: int, dx: int, dy: int|
                    0 <= j < gi && -1 <= dx <= 1 && -1 <= dy <= 1 && !(dx == 0 && dy == 0)
                        && border_live((#[trigger] seeds@[j]).1.rows, dx, dy) && in_safe(
                        #[trigger] crate::sparse::nb_of(seeds@[j].1.coord, dx, dy),
                    ) ==> self.lookup@.contains_key(
                        enc_coord(crate::sparse::nb_of(seeds@[j].1.coord, dx, dy)),
                    ),
            decreases seeds@.len() - gi,
        {
            let e = seeds[gi];
            proof {
                assert(arena_slots(pre0.arena).contains_key(seeds@[gi as int].0));
                assert(in_safe(e.1.coord));
            }
            let ghost at = *self;
            self.spawn_growth(&e.1);
            proof {
                assert forall|j: int, dx: int, dy: int|
                    0 <= j < gi + 1 && -1 <= dx <= 1 && -1 <= dy <= 1 && !(dx == 0 && dy == 0)
                        && border_live((#[trigger] seeds@[j]).1.rows, dx, dy) && in_safe(
                        #[trigger] crate::sparse::nb_of(seeds@[j].1.coord, dx, dy),
                    ) implies self.lookup@.contains_key(
                    enc_coord(crate::sparse::nb_of(seeds@[j].1.coord, dx, dy)),
                ) by {
                    if j < gi {
                        assert(at.lookup@.contains_key(
                            enc_coord(crate::sparse::nb_of(seeds@[j].1.coord, dx, dy)),
                        ));
                    }
                }
            }
            gi = gi + 1;
        }
        let ghost mid = *self;
        let pairs = arena_pairs(&self.arena);
        let mut updates: Vec<(u32, BitChunk, bool, (i64, i64))> = Vec::new();
        let mut i: usize = 0;
        while i < pairs.len()
            invariant
                *self == mid,
                self.wf(),
                0 <= i <= pairs@.len(),
                updates@.len() == i,
                forall|k: int|
                    0 <= k < pairs@.len() ==> arena_slots(self.arena).contains_key(
                        (#[trigger] pairs@[k]).0,
                    ) && arena_slots(self.arena)[pairs@[k].0] == pairs@[k].1,
                forall|s: u32|
                    arena_slots(self.arena).contains_key(s) ==> exists|k: int|
                        0 <= k < pairs@.len() && (#[trigger] pairs@[k]).0 == s,
                forall|k1: int, k2: int|
                    0 <= k1 < k2 < pairs@.len() ==> pairs@[k1].0 != pairs@[k2].0,
                forall|m: int|
                    0 <= m < updates@.len() ==> (#[trigger] updates@[m]).0 == pairs@[m].0
                        && updates@[m].3 == pairs@[m].1.coord && a_entry_rel(
                        mid,
                        pairs@[m].1.coord,
                        updates@[m].1,
                    ),
            decreases pairs@.len() - i,
        {
            let e = pairs[i];
            proof {
                assert(arena_slots(self.arena).contains_key(pairs@[i as int].0));
                assert(in_safe(e.1.coord));
                assert(self.lookup@.contains_key(enc_coord(e.1.coord)));
                assert(arena_slots(self.arena)[self.lookup@[enc_coord(e.1.coord)]].coord
                    == e.1.coord) by {
                    lemma_enc_injective(
                        arena_slots(self.arena)[self.lookup@[enc_coord(e.1.coord)]].coord,
                        e.1.coord,
                    );
                }
                assert(self.lookup@[enc_coord(e.1.coord)] == pairs@[i as int].0);
            }
            let (next, alive) = self.evolve_block_internal(&e.1);
            updates.push((e.0, next, alive, e.1.coord));
            i = i + 1;
        }
        let mut k: usize = 0;
        while k < updates.len()
            invariant
                self.wf(),
                self.generation == mid.generation,
                self.lookup@ == mid.lookup@,
                arena_slots(self.arena).dom() =~= arena_slots(mid.arena).dom(),
                0 <= k <= updates@.len(),
                updates@.len() == pairs@.len(),
                forall|k1: int, k2: int|
                    0 <= k1 < k2 < pairs@.len() ==> pairs@[k1].0 != pairs@[k2].0,
                forall|m: int|
                    0 <= m < updates@.len() ==> (#[trigger] updates@[m]).0 == pairs@[m].0
                        && updates@[m].3 == pairs@[m].1.coord && a_entry_rel(
                        mid,
                        pairs@[m].1.coord,
                        updates@[m].1,
                    ),
                forall|m: int|
                    0 <= m < pairs@.len() ==> arena_slots(mid.arena).contains_key(
                        (#[trigger] pairs@[m]).0,
                    ) && arena_slots(mid.arena)[pairs@[m].0] == pairs@[m].1,
                forall|s: u32|
                    arena_slots(mid.arena).contains_key(s) ==> exists|m: int|
                        0 <= m < pairs@.len() && (#[trigger] pairs@[m]).0 == s,
                forall|s: u32|
                    arena_slots(self.arena).contains_key(s) ==> (#[trigger] arena_slots(
                        self.arena,
                    )[s]).coord == arena_slots(mid.arena)[s].coord,
                forall|m: int|
                    0 <= m < k ==> (#[trigger] arena_slots(self.arena)[updates@[m].0]).rows
                        == updates@[m].1,
                forall|m: int|
                    k <= m < updates@.len() ==> (#[trigger] arena_slots(self.arena)[updates@[m].0]).rows
                        == arena_slots(mid.arena)[updates@[m].0].rows,
            decreases updates@.len() - k,
        {
            let u = updates[k];
            let ghost st = *self;
            match arena_get(&self.arena, u.0) {
                Some(mut b) => {
                    b.rows = u.1;
                    b.alive = u.2;
                    arena_set(&mut self.arena, u.0, b);
                    proof {
                        assert forall|kk: u128|
                            self.lookup@.contains_key(kk) implies arena_slots(
                            self.arena,
                        ).contains_key(#[trigger] self.lookup@[kk]) && enc_coord(
                            arena_slots(self.arena)[self.lookup@[kk]].coord,
                        ) == kk by {
                            if self.lookup@[kk] == u.0 {
                                assert(arena_slots(self.arena)[u.0].coord == arena_slots(
                                    st.arena,
                                )[u.0].coord);
                            }
                        }
                        assert forall|s2: u32|
                            arena_slots(self.arena).contains_key(s2) implies self.lookup@.contains_key(
                            enc_coord(#[trigger] arena_slots(self.arena)[s2].coord),
                        ) && self.lookup@[enc_coord(arena_slots(self.arena)[s2].coord)] == s2
                            && in_safe(arena_slots(self.arena)[s2].coord) by {
                            if s2 == u.0 {
                                assert(arena_slots(self.arena)[u.0].coord == arena_slots(
                                    st.arena,
                                )[u.0].coord);
                            }
                        }
                        assert forall|m: int|
                            k + 1 <= m < updates@.len() implies (#[trigger] arena_slots(
                            self.arena,
                        )[updates@[m].0]).rows == arena_slots(mid.arena)[updates@[m].0].rows by {
                            assert(pairs@[m].0 != pairs@[k as int].0);
                            assert(updates@[m].0 != u.0);
                        }
                    }
                },
                None => {
                    proof {
                        assert(arena_slots(mid.arena).contains_key(pairs@[k as int].0));
                        assert(false);
                    }
                },
            }
            k = k + 1;
        }
        self.generation = self.generation + 1;
        proof {
            assert forall|p: (int, int)|
                final(self).acells().contains(p) implies crate::life::life_next(
                pre0.acells(),
            ).contains(p) by {
                if final(self).acells().contains(p) {
                    let key = enc_tile(p.0 / 64, p.1 / 64);
                    let s = self.lookup@[key];
                    let m = choose|m: int| 0 <= m < pairs@.len() && (#[trigger] pairs@[m]).0 == s;
                    assert(arena_slots(self.arena)[s].rows == updates@[m].1);
                    assert(a_entry_rel(mid, pairs@[m].1.coord, updates@[m].1));
                    assert(pairs@[m].1.coord == arena_slots(mid.arena)[s].coord);
                    assert(enc_coord(arena_slots(mid.arena)[s].coord) == key);
                    lemma_enc_injective(
                        arena_slots(mid.arena)[s].coord,
                        (((p.0 / 64) as i64), ((p.1 / 64) as i64)),
                    );
                    vstd::arithmetic::div_mod::lemma_fundamental_div_mod(p.0, 64);
                    vstd::arithmetic::div_mod::lemma_fundamental_div_mod(p.1, 64);
                    assert(crate::life::life_next(mid.acells()).contains(p));
                    assert(mid.acells() == pre0.acells());
                }
            }
            assert forall|p: (int, int)|
                (crate::life::life_next(pre0.acells()).contains(p) && crate::sparse::cell_in_safe(
                    p.0,
                    p.1,
                )) implies final(self).acells().contains(p) by {
                crate::life::lemma_life_next_neighbor(pre0.acells(), p);
                let q = choose|q: (int, int)|
                    #[trigger] pre0.acells().contains(q) && p.0 - 1 <= q.0 <= p.0 + 1 && p.1 - 1
                        <= q.1 <= p.1 + 1;
                let qkey = enc_tile(q.0 / 64, q.1 / 64);
                let qs = pre0.lookup@[qkey];
                let j = choose|j: int| 0 <= j < seeds@.len() && (#[trigger] seeds@[j]).0 == qs;
                let qb = seeds@[j].1;
                assert(arena_slots(pre0.arena)[qs] == qb);
                assert(enc_coord(qb.coord) == qkey);
                lemma_enc_injective(qb.coord, (((q.0 / 64) as i64), ((q.1 / 64) as i64)));
                vstd::arithmetic::div_mod::lemma_fundamental_div_mod(q.0, 64);
                vstd::arithmetic::div_mod::lemma_fundamental_div_mod(q.1, 64);
                vstd::arithmetic::div_mod::lemma_fundamental_div_mod(p.0, 64);
                vstd::arithmetic::div_mod::lemma_fundamental_div_mod(p.1, 64);
                crate::sparse::lemma_div_adjacent(q.0, p.0);
                crate::sparse::lemma_div_adjacent(q.1, p.1);
                let dx = p.0 / 64 - q.0 / 64;
                let dy = p.1 / 64 - q.1 / 64;
                assert(-1 <= dx <= 1 && -1 <= dy <= 1);
                let pbv = crate::sparse::nb_of(qb.coord, dx, dy);
                assert(pbv.0 as int == p.0 / 64 && pbv.1 as int == p.1 / 64);
                assert(in_safe(pbv) == crate::sparse::cell_in_safe(p.0, p.1));
                assert(qb.rows.cell(q.0 % 64, q.1 % 64));
                if !(dx == 0 && dy == 0) {
                    lemma_border_position(qb.rows, q.0, q.1, p.0, p.1, dx, dy);
                    assert(border_live(qb.rows, dx, dy));
                    assert(mid.lookup@.contains_key(enc_coord(pbv)));
                } else {
                    assert(pbv == qb.coord);
                    assert(mid.lookup@.contains_key(enc_coord(pbv)));
                }
                let key = enc_coord(pbv);
                let s = mid.lookup@[key];
                assert(arena_slots(mid.arena).contains_key(s));
                let m = choose|m: int| 0 <= m < pairs@.len() && (#[trigger] pairs@[m]).0 == s;
                assert(a_entry_rel(mid, pairs@[m].1.coord, updates@[m].1));
                assert(pairs@[m].1.coord == arena_slots(mid.arena)[s].coord);
                lemma_enc_injective(arena_slots(mid.arena)[s].coord, pbv);
                assert(mid.acells() == pre0.acells());
                assert(updates@[m].1.cell(p.0 % 64, p.1 % 64));
                assert(arena_slots(self.arena)[s].rows == updates@[m].1);
                assert(final(self).acells().contains(p));
            }
        }
    }

    /// Spawns every missing neighbour tile toward which this tile's
    /// outward border is live, so the coming evaluation can place births
    /// crossing the seam.
    fn spawn_growth(&mut self, b: &Block)
        requires
            old(self).wf(),
            in_safe(b.coord),
        ensures
            final(self).wf(),
            final(self).generation == old(self).generation,
            final(self).acells() =~= old(self).acells(),
            forall|kk: u128|
                old(self).lookup@.contains_key(kk) ==> final(self).lookup@.contains_key(kk),
            forall|dx: int, dy: int|
                -1 <= dx <= 1 && -1 <= dy <= 1 && !(dx == 0 && dy == 0) && border_live(
                    b.rows,
                    dx,
                    dy,
                ) && in_safe(#[trigger] crate::sparse::nb_of(b.coord, dx, dy)) ==> final(self).lookup@.contains_key(enc_coord(crate::sparse::nb_of(b.coord, dx, dy))),
    {
        let n_live = row_any(b.rows.data[0]);
        let s_live = row_any(b.rows.data[63]);
        let w_live = col_any(&b.rows, 0);
        let e_live = col_any(&b.rows, 63);
        let nw_live = b.rows.get(0, 0);
        let ne_live = b.rows.get(63, 0);
        let sw_live = b.rows.get(0, 63);
        let se_live = b.rows.get(63, 63);
        proof {
            assert(n_live == border_live(b.rows, 0, -1)) by {
                if n_live {
                    let x = choose|x: int| 0 <= x < 64 && crate::life::bit64(b.rows.data[0], x);
                    assert(b.rows.cell(x, 0));
                }
                if border_live(b.rows, 0, -1) {
                    let x = choose|x: int| 0 <= x < 64 && b.rows.cell(x, 0);
                    assert(crate::life::bit64(b.rows.data[0], x));
                }
            }
            assert(s_live == border_live(b.rows, 0, 1)) by {
                if s_live {
                    let x = choose|x: int| 0 <= x < 64 && crate::life::bit64(b.rows.data[63], x);
                    assert(b.rows.cell(x, 63));
                }
                if border_live(b.rows, 0, 1) {
                    let x = choose|x: int| 0 <= x < 64 && b.rows.cell(x, 63);
                    assert(crate::life::bit64(b.rows.data[63], x));
                }
            }
        }
        self.spawn_toward(b, 0, -1, n_live);
        self.spawn_toward(b, 0, 1, s_live);
        self.spawn_toward(b, -1, 0, w_live);
        self.spawn_toward(b, 1, 0, e_live);
        self.spawn_toward(b, -1, -1, nw_live);
        self.spawn_toward(b, 1, -1, ne_live);
        self.spawn_toward(b, -1, 1, sw_live);
        self.spawn_toward(b, 1, 1, se_live);
    }

    /// Spawns the neighbour at one unit offset when its border is live.
    fn spawn_toward(&mut self, b: &Block, dx: i64, dy: i64, live: bool)
        requires
            old(self).wf(),
            in_safe(b.coord),
            -1 <= dx <= 1,
            -1 <= dy <= 1,
            live == border_live(b.rows, dx as int, dy as int),
        ensures
            final(self).wf(),
            final(self).generation == old(self).generation,
            final(self).acells() =~= old(self).acells(),
            forall|kk: u128|
                old(self).lookup@.contains_key(kk) ==> final(self).lookup@.contains_key(kk),
            (live && in_safe(crate::sparse::nb_of(b.coord, dx as int, dy as int))) ==> final(self).lookup@.contains_key(
                enc_coord(crate::sparse::nb_of(b.coord, dx as int, dy as int)),
            ),
    {
        if !live {
            return ;
        }
        let nc = (b.coord.0 + dx, b.coord.1 + dy);
        if -SAFE_LIMIT <= nc.0 && nc.0 < SAFE_LIMIT && -SAFE_LIMIT <= nc.1 && nc.1 < SAFE_LIMIT {
            let _ = self.spawn_block(nc);
            proof {
                assert(nc == crate::sparse::nb_of(b.coord, dx as int, dy as int));
            }
        }
    }

    /// Next generation of one tile, read from the engine's own state; the
    /// cached neighbour slots serve the reads and the coordinate map backs
    /// them up.
    pub fn evolve_block_internal(&self, b: &Block) -> (r: (BitChunk, bool))
        requires
            self.wf(),
            in_safe(b.coord),
            a_chunk_matches(*self, (b.coord.0 as int, b.coord.1 as int), b.rows),
        ensures
            forall|lx: int, ly: int|
                0 <= lx < 64 && 0 <= ly < 64 ==> (#[trigger] r.0.cell(lx, ly)
                    == crate::life::life_next(self.acells()).contains(
                    (b.coord.0 as int * 64 + lx, b.coord.1 as int * 64 + ly),
                )),
            r.1 == exists|y: int| 0 <= y < 64 && r.0.data[y] != 0u64,
    {
        let empty = BitChunk::new();
        let cn = self.neighbor_rows(b, 0, &empty);
        let cs = self.neighbor_rows(b, 1, &empty);
        let cw = self.neighbor_rows(b, 2, &empty);
        let ce = self.neighbor_rows(b, 3, &empty);
        let cnw = self.neighbor_rows(b, 4, &empty);
        let cne = self.neighbor_rows(b, 5, &empty);
        let csw = self.neighbor_rows(b, 6, &empty);
        let cse = self.neighbor_rows(b, 7, &empty);
        let arr: [[&BitChunk; 3]; 3] = [[&cnw, &cn, &cne], [&cw, &b.rows, &ce], [&csw, &cs, &cse]];
        let (next, alive) = b.rows.step_bitwise_9(arr);
        proof {
            assert(*arr[0][0] == cnw && *arr[0][1] == cn && *arr[0][2] == cne);
            assert(*arr[1][0] == cw && *arr[1][2] == ce);
            assert(*arr[2][0] == csw && *arr[2][1] == cs && *arr[2][2] == cse);
            assert forall|lx: int, ly: int|
                0 <= lx < 64 && 0 <= ly < 64 implies (#[trigger] next.cell(lx, ly)
                == crate::life::life_next(self.acells()).contains(
                (b.coord.0 as int * 64 + lx, b.coord.1 as int * 64 + ly),
            )) by {
                lemma_a_nine_count_global(
                    *self,
                    b.coord,
                    b.rows,
                    cnw,
                    cn,
                    cne,
                    cw,
                    ce,
                    csw,
                    cs,
                    cse,
                    lx,
                    ly,
                );
                assert(crate::chunk::nine_count(b.rows, arr, lx, ly) == crate::chunk::nine_count9(
                    b.rows,
                    cnw,
                    cn,
                    cne,
                    cw,
                    ce,
                    csw,
                    cs,
                    cse,
                    lx,
                    ly,
                ));
            }
        }
        (next, alive)
    }

    /// The tile adjoining `b` in direction `dir` (N, S, W, E, NW, NE, SW,
    /// SE), read through the cached slot when it agrees with the
    /// coordinate map and through the map otherwise.
    fn neighbor_rows(&self, b: &Block, dir: usize, empty: &BitChunk) -> (r: BitChunk)
        requires
            self.wf(),
            in_safe(b.coord),
            dir < 8,
        ensures
            a_chunk_matches(
                *self,
                (
                    b.coord.0 as int + dir_off(dir as int).0,
                    b.coord.1 as int + dir_off(dir as int).1,
                ),
                r,
            ),
    {
        let (dx, dy): (i64, i64) = if dir == 0 {
            (0, -1)
        } else if dir == 1 {
            (0, 1)
        } else if dir == 2 {
            (-1, 0)
        } else if dir == 3 {
            (1, 0)
        } else if dir == 4 {
            (-1, -1)
        } else if dir == 5 {
            (1, -1)
        } else if dir == 6 {
            (-1, 1)
        } else {
            (1, 1)
        };
        let nc = (b.coord.0 + dx, b.coord.1 + dy);
        match b.neighbors[dir] {
            Some(s) => {
                match arena_get(&self.arena, s) {
                    Some(nb) => {
                        if nb.coord.0 == nc.0 && nb.coord.1 == nc.1 {
                            proof {
                                assert(self.lookup@.contains_key(enc_coord(nb.coord)));
                                assert(self.lookup@[enc_coord(nc)] == s);
                            }
                            nb.rows
                        } else {
                            self.fetch_tile(nc)
                        }
                    },
                    None => self.fetch_tile(nc),
                }
            },
            None => self.fetch_tile(nc),
        }
    }

    /// The tile stored at coordinate `c`, or the all-dead tile.
    fn fetch_tile(&self, c: (i64, i64)) -> (r: BitChunk)
        requires
            self.wf(),
        ensures
            a_chunk_matches(*self, (c.0 as int, c.1 as int), r),
    {
        match self.slot_of(c) {
            Some(s) => {
                match arena_get(&self.arena, s) {
                    Some(nb) => nb.rows,
                    None => {
                        proof {
                            assert(false);
                        }
                        BitChunk::new()
                    },
                }
            },
            None => BitChunk::new(),
        }
    }
}

/// The unit offset of a neighbour direction index (N, S, W, E, NW, NE,
/// SW, SE).
pub open spec fn dir_off(dir: int) -> (int, int) {
    if dir == 0 {
        (0int, -1int)
    } else if dir == 1 {
        (0int, 1int)
    } else if dir == 2 {
        (-1int, 0int)
    } else if dir == 3 {
        (1int, 0int)
    } else if dir == 4 {
        (-1int, -1int)
    } else if dir == 5 {
        (1int, -1int)
    } else if dir == 6 {
        (-1int, 1int)
    } else {
        (1int, 1int)
    }
}

/// The engine's own cell at local `(a, bb)` of the tile at coordinate
/// `c`: live exactly when the coordinate map holds that tile and the
/// stored tile has the bit.
pub open spec fn a_tile_cell(s: ArenaLife, c: (int, int), a: int, bb: int) -> bool {
    &&& s.lookup@.contains_key(enc_tile(c.0, c.1))
    &&& arena_slots(s.arena).contains_key(s.lookup@[enc_tile(c.0, c.1)])
    &&& arena_slots(s.arena)[s.lookup@[enc_tile(c.0, c.1)]].rows.cell(a, bb)
}

/// A tile value that shows exactly the engine's cells at tile `c`.
pub open spec fn a_chunk_matches(s: ArenaLife, c: (int, int), ch: BitChunk) -> bool {
    forall|a: int, bb: int| #[trigger] ch.cell(a, bb) == a_tile_cell(s, c, a, bb)
}

/// A freshly evaluated tile shows the next generation of the engine's
/// state at its square.
pub open spec fn a_entry_rel(s: ArenaLife, coord: (i64, i64), rows: BitChunk) -> bool {
    forall|lx: int, ly: int|
        0 <= lx < 64 && 0 <= ly < 64 ==> (#[trigger] rows.cell(lx, ly)
            == crate::life::life_next(s.acells()).contains(
            (coord.0 as int * 64 + lx, coord.1 as int * 64 + ly),
        ))
}

/// Whether the border of a tile facing the unit offset `(dx, dy)` holds a
/// live cell.
pub open spec fn border_live(rows: BitChunk, dx: int, dy: int) -> bool {
    if dx == 0 && dy == -1 {
        exists|x: int| 0 <= x < 64 && rows.cell(x, 0)
    } else if dx == 0 && dy == 1 {
        exists|x: int| 0 <= x < 64 && rows.cell(x, 63)
    } else if dx == -1 && dy == 0 {
        exists|y: int| 0 <= y < 64 && rows.cell(0, y)
    } else if dx == 1 && dy == 0 {
        exists|y: int| 0 <= y < 64 && rows.cell(63, y)
    } else if dx == -1 && dy == -1 {
        rows.cell(0, 0)
    } else if dx == 1 && dy == -1 {
        rows.cell(63, 0)
    } else if dx == -1 && dy == 1 {
        rows.cell(0, 63)
    } else if dx == 1 && dy == 1 {
        rows.cell(63, 63)
    } else {
        false
    }
}

/// A cell next to a tile seam lies on the facing border: from a live `q`
/// whose tile adjoins `p`'s tile at offset `(dx, dy)`, the border toward
/// `(dx, dy)` is live.
proof fn lemma_border_position(
    rows: BitChunk,
    qx: int,
    qy: int,
    px: int,
    py: int,
    dx: int,
    dy: int,
)
    requires
        rows.cell(qx % 64, qy % 64),
        px - 1 <= qx <= px + 1,
        py - 1 <= qy <= py + 1,
        dx == px / 64 - qx / 64,
        dy == py / 64 - qy / 64,
        !(dx == 0 && dy == 0),
    ensures
        border_live(rows, dx, dy),
{
    vstd::arithmetic::div_mod::lemma_fundamental_div_mod(qx, 64);
    vstd::arithmetic::div_mod::lemma_fundamental_div_mod(qy, 64);
    vstd::arithmetic::div_mod::lemma_fundamental_div_mod(px, 64);
    vstd::arithmetic::div_mod::lemma_fundamental_div_mod(py, 64);
    if dx == -1 {
        assert(qx % 64 == 0);
    } else if dx == 1 {
        assert(qx % 64 == 63);
    }
    if dy == -1 {
        assert(qy % 64 == 0);
    } else if dy == 1 {
        assert(qy % 64 == 63);
    }
}

/// Any live bit of a packed row, found by scanning.
fn row_any(w: u64) -> (r: bool)
    ensures
        r == exists|x: int| 0 <= x < 64 && crate::life::bit64(w, x),
{
    let mut x: usize = 0;
    while x < 64
        invariant
            0 <= x <= 64,
            forall|j: int| 0 <= j < x ==> !crate::life::bit64(w, j),
        decreases 64 - x,
    {
        if (w >> (x as u64)) & 1u64 == 1u64 {
            proof {
                assert(crate::life::bit64(w, x as int));
            }
            return true;
        }
        x = x + 1;
    }
    false
}

/// Any live cell of one tile column, found by scanning.
fn col_any(ch: &BitChunk, col: i32) -> (r: bool)
    requires
        0 <= col < 64,
    ensures
        r == exists|y: int| 0 <= y < 64 && ch.cell(col as int, y),
{
    let mut y: i32 = 0;
    while y < 64
        invariant
            0 <= y <= 64,
            0 <= col < 64,
            forall|j: int| 0 <= j < y ==> !ch.cell(col as int, j),
        decreases 64 - y,
    {
        if ch.get(col, y) {
            return true;
        }
        y = y + 1;
    }
    false
}

/// The nine assembled tiles read the engine's own cells: the neighbour
/// count the packed step uses equals the global neighbour count.
#[verifier::rlimit(100)]
proof fn lemma_a_nine_global(
    s: ArenaLife,
    bc: (i64, i64),
    cen: BitChunk,
    cnw: BitChunk,
    cn: BitChunk,
    cne: BitChunk,
    cw: BitChunk,
    ce: BitChunk,
    csw: BitChunk,
    cs: BitChunk,
    cse: BitChunk,
    gx: int,
    gy: int,
)
    requires
        s.wf(),
        in_safe(bc),
        a_chunk_matches(s, (bc.0 as int, bc.1 as int), cen),
        a_chunk_matches(s, (bc.0 as int - 1, bc.1 as int - 1), cnw),
        a_chunk_matches(s, (bc.0 as int, bc.1 as int - 1), cn),
        a_chunk_matches(s, (bc.0 as int + 1, bc.1 as int - 1), cne),
        a_chunk_matches(s, (bc.0 as int - 1, bc.1 as int), cw),
        a_chunk_matches(s, (bc.0 as int + 1, bc.1 as int), ce),
        a_chunk_matches(s, (bc.0 as int - 1, bc.1 as int + 1), csw),
        a_chunk_matches(s, (bc.0 as int, bc.1 as int + 1), cs),
        a_chunk_matches(s, (bc.0 as int + 1, bc.1 as int + 1), cse),
        -64 <= gx < 128,
        -64 <= gy < 128,
    ensures
        crate::chunk::nine_cell9(cen, cnw, cn, cne, cw, ce, csw, cs, cse, gx, gy) == s.acells(
        ).contains((bc.0 as int * 64 + gx, bc.1 as int * 64 + gy)),
{
    reveal(crate::chunk::nine_cell9);
    let wx = bc.0 as int * 64 + gx;
    let wy = bc.1 as int * 64 + gy;
    let dx: int = if gx < 0 {
        -1
    } else if gx < 64 {
        0
    } else {
        1
    };
    let dy: int = if gy < 0 {
        -1
    } else if gy < 64 {
        0
    } else {
        1
    };
    vstd::arithmetic::div_mod::lemma_fundamental_div_mod_converse(
        wx,
        64,
        bc.0 as int + dx,
        gx - 64 * dx,
    );
    vstd::arithmetic::div_mod::lemma_fundamental_div_mod_converse(
        wy,
        64,
        bc.1 as int + dy,
        gy - 64 * dy,
    );
    assert(wx / 64 == bc.0 as int + dx && wx % 64 == gx - 64 * dx);
    assert(wy / 64 == bc.1 as int + dy && wy % 64 == gy - 64 * dy);
    if !crate::sparse::cell_in_safe(wx, wy) {
        let ck = enc_tile(wx / 64, wy / 64);
        if s.lookup@.contains_key(ck) {
            let cs2 = s.lookup@[ck];
            lemma_enc_injective(
                arena_slots(s.arena)[cs2].coord,
                (((wx / 64) as i64), ((wy / 64) as i64)),
            );
        }
    }
}

/// The global neighbour count of a cell of tile `bc` equals the packed
/// step's nine-tile count, and the centre bit is the cell itself.
proof fn lemma_a_nine_count_global(
    s: ArenaLife,
    bc: (i64, i64),
    cen: BitChunk,
    cnw: BitChunk,
    cn: BitChunk,
    cne: BitChunk,
    cw: BitChunk,
    ce: BitChunk,
    csw: BitChunk,
    cs: BitChunk,
    cse: BitChunk,
    lx: int,
    ly: int,
)
    requires
        s.wf(),
        in_safe(bc),
        a_chunk_matches(s, (bc.0 as int, bc.1 as int), cen),
        a_chunk_matches(s, (bc.0 as int - 1, bc.1 as int - 1), cnw),
        a_chunk_matches(s, (bc.0 as int, bc.1 as int - 1), cn),
        a_chunk_matches(s, (bc.0 as int + 1, bc.1 as int - 1), cne),
        a_chunk_matches(s, (bc.0 as int - 1, bc.1 as int), cw),
        a_chunk_matches(s, (bc.0 as int + 1, bc.1 as int), ce),
        a_chunk_matches(s, (bc.0 as int - 1, bc.1 as int + 1), csw),
        a_chunk_matches(s, (bc.0 as int, bc.1 as int + 1), cs),
        a_chunk_matches(s, (bc.0 as int + 1, bc.1 as int + 1), cse),
        0 <= lx < 64,
        0 <= ly < 64,
    ensures
        crate::chunk::nine_count9(cen, cnw, cn, cne, cw, ce, csw, cs, cse, lx, ly)
            == crate::life::neighbor_count(
            s.acells(),
            bc.0 as int * 64 + lx,
            bc.1 as int * 64 + ly,
        ),
        cen.cell(lx, ly) == s.acells().contains((bc.0 as int * 64 + lx, bc.1 as int * 64 + ly)),
{
    lemma_a_nine_global(s, bc, cen, cnw, cn, cne, cw, ce, csw, cs, cse, lx - 1, ly - 1);
    lemma_a_nine_global(s, bc, cen, cnw, cn, cne, cw, ce, csw, cs, cse, lx, ly - 1);
    lemma_a_nine_global(s, bc, cen, cnw, cn, cne, cw, ce, csw, cs, cse, lx + 1, ly - 1);
    lemma_a_nine_global(s, bc, cen, cnw, cn, cne, cw, ce, csw, cs, cse, lx - 1, ly);
    lemma_a_nine_global(s, bc, cen, cnw, cn, cne, cw, ce, csw, cs, cse, lx + 1, ly);
    lemma_a_nine_global(s, bc, cen, cnw, cn, cne, cw, ce, csw, cs, cse, lx - 1, ly + 1);
    lemma_a_nine_global(s, bc, cen, cnw, cn, cne, cw, ce, csw, cs, cse, lx, ly + 1);
    lemma_a_nine_global(s, bc, cen, cnw, cn, cne, cw, ce, csw, cs, cse, lx + 1, ly + 1);
    lemma_a_nine_global(s, bc, cen, cnw, cn, cne, cw, ce, csw, cs, cse, lx, ly);
    reveal(crate::chunk::nine_cell9);
}

/// Whether the world cell `p` lies inside the square of a listed tile.
pub open spec fn pair_square(e: (u32, Block), p: (i64, i64)) -> bool {
    crate::hashlife::in_square(p, e.1.coord.0 as int * 64, e.1.coord.1 as int * 64, 64)
}

/// Whether an arena listing entry shows the world cell `p` as live.
pub open spec fn pair_shows(e: (u32, Block), p: (i64, i64)) -> bool {
    e.1.coord.0 as int == (p.0 as int) / 64 && e.1.coord.1 as int == (p.1 as int) / 64
        && e.1.rows.cell((p.0 as int) % 64, (p.1 as int) % 64)
}

} // verus!
