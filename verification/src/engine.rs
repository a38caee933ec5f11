//! The engine facade: one operational interface over the three engines,
//! chosen by a mode tag, together with the viewport rasteriser for
//! integer zoom factors.

use vstd::prelude::*;

use crate::arena_life::ArenaLife;
use crate::hashlife::Hashlife;
use crate::sparse::SparseLife;

verus! {

/// Which engine a universe runs on.
#[derive(Clone, Copy, Debug, PartialEq, Eq, Structural)]
pub enum EngineMode {
    ArenaLife,
    SparseLife,
    HashLife,
}

/// A universe running on one of the three engines.
pub enum Engine {
    Arena(ArenaLife),
    Sparse(SparseLife),
    Hash(Hashlife),
}

impl Engine {
    /// Engine invariant.
    pub open spec fn wf(self) -> bool {
        match self {
            Engine::Arena(e) => e.wf(),
            Engine::Sparse(e) => e.wf(),
            Engine::Hash(e) => e.wf(),
        }
    }

    /// The set of live world cells.
    pub open spec fn cells(self) -> Set<(int, int)> {
        match self {
            Engine::Arena(e) => e.acells(),
            Engine::Sparse(e) => e.scells(),
            Engine::Hash(e) => e.ucells(),
        }
    }

    /// The mode tag of the engine this universe runs on.
    pub open spec fn mode_of(self) -> EngineMode {
        match self {
            Engine::Arena(_) => EngineMode::ArenaLife,
            Engine::Sparse(_) => EngineMode::SparseLife,
            Engine::Hash(_) => EngineMode::HashLife,
        }
    }

    /// Whether this universe runs on the quadtree engine.
    pub open spec fn is_quadtree(self) -> bool {
        match self {
            Engine::Hash(_) => true,
            _ => false,
        }
    }

    /// Generations taken so far.
    pub open spec fn spec_generation(self) -> u64 {
        match self {
            Engine::Arena(e) => e.generation,
            Engine::Sparse(e) => e.generation,
            Engine::Hash(e) => e.generation,
        }
    }

    /// Generations taken so far.
    pub fn generation(&self) -> (r: u64)
        ensures
            r == self.spec_generation(),
    {
        match self {
            Engine::Arena(e) => e.generation,
            Engine::Sparse(e) => e.generation,
            Engine::Hash(e) => e.generation,
        }
    }

    /// A short tag naming the engine.
    pub fn id(&self) -> (r: &'static str)
        ensures
            r@ == (match self {
                Engine::Arena(_) => "arena-life"@,
                Engine::Sparse(_) => "sparse-life"@,
                Engine::Hash(_) => "hash-life"@,
            }),
    {
        match self {
            Engine::Arena(_) => "arena-life",
            Engine::Sparse(_) => "sparse-life",
            Engine::Hash(_) => "hash-life",
        }
    }

    /// The engine's display name.
    pub fn name(&self) -> (r: &'static str)
        ensures
            r@ == (match self {
                Engine::Arena(_) => "ArenaLife"@,
                Engine::Sparse(_) => "SparseLife"@,
                Engine::Hash(_) => "Hashlife"@,
            }),
    {
        match self {
            Engine::Arena(_) => "ArenaLife",
            Engine::Sparse(_) => "SparseLife",
            Engine::Hash(_) => "Hashlife",
        }
    }

    /// Advances the universe by `steps` generations and returns the
    /// number taken.  On the two block engines the final live set is the
    /// `steps`-fold B3/S23 successor of the initial one whenever every
    /// intermediate generation stays on the signed 64-bit grid; the
    /// quadtree engine's recursive evolution is checked by the
    /// cross-engine tests.
    pub fn step(&mut self, steps: u64) -> (r: u64)
        requires
            old(self).wf(),
            old(self).spec_generation() + steps <= u64::MAX,
        ensures
            final(self).wf(),
            r == steps,
            final(self).spec_generation() == old(self).spec_generation() + steps,
            steps == 0 ==> final(self).cells() =~= old(self).cells(),
            (!old(self).is_quadtree() && (forall|k: nat|
                k <= steps ==> crate::sparse::set_in_safe(
                    #[trigger] crate::life::life_steps(k, old(self).cells()),
                ))) ==> final(self).cells() =~= crate::life::life_steps(
                steps as nat,
                old(self).cells(),
            ),
    {
        match self {
            Engine::Arena(e) => {
                let r = e.step(steps);
                proof {
                    if steps == 0 {
                        assert(final(self).cells() =~= old(self).cells());
                    }
                }
                r
            },
            Engine::Sparse(e) => {
                let r = e.step(steps);
                proof {
                    if steps == 0 {
                        assert(final(self).cells() =~= old(self).cells());
                    }
                }
                r
            },
            Engine::Hash(e) => {
                let r = e.step(steps);
                proof {
                    if steps == 0 {
                        assert(final(self).cells() =~= old(self).cells());
                    }
                }
                r
            },
        }
    }

    /// Writes one cell.  The block engines accept every signed 64-bit
    /// coordinate; the quadtree engine may drop a write further out than
    /// its bounded expansion reaches, and is exact within the common
    /// range.
    pub fn set_cell(&mut self, x: i64, y: i64, alive: bool)
        requires
            old(self).wf(),
        ensures
            final(self).wf(),
            final(self).spec_generation() == old(self).spec_generation(),
            (in_range(x, y) || !old(self).is_quadtree()) ==> final(self).cells() =~= (if alive {
                old(self).cells().insert((x as int, y as int))
            } else {
                old(self).cells().remove((x as int, y as int))
            }),
    {
        match self {
            Engine::Arena(e) => e.set_cell(x, y, alive),
            Engine::Sparse(e) => e.set_cell(x, y, alive),
            Engine::Hash(e) => {
                e.set_cell(x, y, alive);
                proof {
                    if in_range(x, y) {
                        assert(final(self).cells() =~= (if alive {
                            old(self).cells().insert((x as int, y as int))
                        } else {
                            old(self).cells().remove((x as int, y as int))
                        }));
                    }
                }
            },
        }
    }

    /// Writes many cells to one value.
    pub fn set_cells(&mut self, coords: &Vec<(i64, i64)>, alive: bool)
        requires
            old(self).wf(),
        ensures
            final(self).wf(),
            final(self).spec_generation() == old(self).spec_generation(),
            ((forall|k: int| 0 <= k < coords@.len() ==> in_range_p(#[trigger] coords@[k])) && alive)
                ==> final(self).cells() =~= old(self).cells().union(
                crate::hashlife::coord_set(coords@),
            ),
            ((forall|k: int| 0 <= k < coords@.len() ==> in_range_p(#[trigger] coords@[k]))
                && !alive) ==> final(self).cells() =~= old(self).cells().difference(
                crate::hashlife::coord_set(coords@),
            ),
            (!old(self).is_quadtree() && alive) ==> final(self).cells() =~= old(
                self,
            ).cells().union(crate::hashlife::coord_set(coords@)),
            (!old(self).is_quadtree() && !alive) ==> final(self).cells() =~= old(
                self,
            ).cells().difference(crate::hashlife::coord_set(coords@)),
    {
        let ghost all_in = forall|k: int|
            0 <= k < coords@.len() ==> in_range_p(#[trigger] coords@[k]);
        match self {
            Engine::Arena(e) => {
                e.set_cells(coords, alive);
                proof {
                    if all_in && !alive {
                        assert(final(self).cells() =~= old(self).cells().difference(
                            crate::hashlife::coord_set(coords@),
                        ));
                    }
                }
            },
            Engine::Sparse(e) => {
                e.set_cells(coords, alive);
                proof {
                    if all_in && !alive {
                        assert(final(self).cells() =~= old(self).cells().difference(
                            crate::hashlife::coord_set(coords@),
                        ));
                    }
                }
            },
            Engine::Hash(e) => {
                e.set_cells(coords, alive);
                proof {
                    if all_in && !alive {
                        assert(forall|k: int|
                            0 <= k < coords@.len() ==> crate::hashlife::in_friendly_range(
                                #[trigger] coords@[k],
                            ));
                        assert(final(self).cells() =~= old(self).cells().difference(
                            crate::hashlife::coord_set(coords@),
                        ));
                    }
                }
            },
        }
    }

    /// Whether the world cell `(x, y)` is live.
    pub fn get_cell(&self, x: i64, y: i64) -> (r: bool)
        requires
            self.wf(),
        ensures
            r == self.cells().contains((x as int, y as int)),
    {
        match self {
            Engine::Arena(e) => e.get_cell(x, y),
            Engine::Sparse(e) => e.get_cell(x, y),
            Engine::Hash(e) => e.get_cell(x, y),
        }
    }

    /// Number of live cells: the size of the live set.
    pub fn population(&self) -> (r: u64)
        requires
            self.wf(),
        ensures
            self.cells().finite(),
            r == self.cells().len(),
    {
        match self {
            Engine::Arena(e) => e.population(),
            Engine::Sparse(e) => e.population(),
            Engine::Hash(e) => e.population(),
        }
    }

    /// Empties the universe.
    pub fn clear(&mut self)
        requires
            old(self).wf(),
        ensures
            final(self).wf(),
            final(self).cells() =~= Set::<(int, int)>::empty(),
            final(self).spec_generation() == 0,
    {
        match self {
            Engine::Arena(e) => e.clear(),
            Engine::Sparse(e) => e.clear(),
            Engine::Hash(e) => e.clear(),
        }
    }

    /// Replaces the whole universe by the given live set: never more than
    /// the listed cells, exactly the in-range ones on the block engines,
    /// and exactly all of them when every coordinate is in range.
    pub fn import(&mut self, alive_cells: &Vec<(i64, i64)>)
        requires
            old(self).wf(),
        ensures
            final(self).wf(),
            final(self).mode_of() == old(self).mode_of(),
            final(self).spec_generation() == 0,
            forall|p: (int, int)|
                final(self).cells().contains(p) ==> #[trigger] crate::hashlife::coord_set(
                    alive_cells@,
                ).contains(p),
            !old(self).is_quadtree() ==> final(self).cells() =~= crate::hashlife::coord_set(
                alive_cells@,
            ),
            (forall|k: int| 0 <= k < alive_cells@.len() ==> in_range_p(#[trigger] alive_cells@[k]))
                ==> final(self).cells() =~= crate::hashlife::coord_set(alive_cells@),
    {
        match self {
            Engine::Arena(e) => e.import(alive_cells),
            Engine::Sparse(e) => e.import(alive_cells),
            Engine::Hash(e) => e.import(alive_cells),
        }
    }

    /// Lists every live cell, without duplicates, in no particular order.
    pub fn export(&self) -> (r: Vec<(i64, i64)>)
        requires
            self.wf(),
        ensures
            crate::node::no_dups(r@),
            forall|p: (i64, i64)|
                r@.contains(p) <==> self.cells().contains((p.0 as int, p.1 as int)),
    {
        match self {
            Engine::Arena(e) => e.export(),
            Engine::Sparse(e) => e.export(),
            Engine::Hash(e) => e.export(),
        }
    }

    /// A fresh owned universe of the same engine, carrying the same live
    /// set (rebuilt from it; the quadtree engine can carry cells it has
    /// expanded to far beyond the guaranteed range, and those a rebuild
    /// may drop) and the same generation counter.
    pub fn box_clone(&self) -> (r: Engine)
        requires
            self.wf(),
        ensures
            r.wf(),
            r.mode_of() == self.mode_of(),
            r.spec_generation() == self.spec_generation(),
            !self.is_quadtree() ==> r.cells() =~= self.cells(),
            (forall|p: (int, int)| self.cells().contains(p) ==> in_range_i(p)) ==> r.cells()
                =~= self.cells(),
    {
        let cells = self.export();
        let mode = match self {
            Engine::Arena(_) => EngineMode::ArenaLife,
            Engine::Sparse(_) => EngineMode::SparseLife,
            Engine::Hash(_) => EngineMode::HashLife,
        };
        let mut fresh = create_engine(mode);
        fresh.import(&cells);
        let g = self.generation();
        match &mut fresh {
            Engine::Arena(e) => {
                e.generation = g;
            },
            Engine::Sparse(e) => {
                e.generation = g;
            },
            Engine::Hash(e) => {
                e.generation = g;
            },
        }
        proof {
            if !self.is_quadtree() {
                self.lemma_cells_machine();
                assert(fresh.cells() == crate::hashlife::coord_set(cells@));
                assert forall|p: (int, int)|
                    fresh.cells().contains(p) == self.cells().contains(p) by {
                    if crate::hashlife::coord_set(cells@).contains(p) {
                        let m = choose|m: int|
                            0 <= m < cells@.len() && (#[trigger] cells@[m]).0 == p.0 && cells@[m].1
                                == p.1;
                        assert(cells@.contains(cells@[m]));
                    }
                    if self.cells().contains(p) {
                        assert(cells@.contains((p.0 as i64, p.1 as i64)));
                        let m = choose|m: int|
                            0 <= m < cells@.len() && cells@[m] == (p.0 as i64, p.1 as i64);
                        assert((#[trigger] cells@[m]).0 == p.0 && cells@[m].1 == p.1);
                        assert(crate::hashlife::coord_set(cells@).contains(p));
                    }
                }
                assert(fresh.cells() =~= self.cells());
            }
            if forall|p: (int, int)| self.cells().contains(p) ==> in_range_i(p) {
                assert forall|k: int|
                    0 <= k < cells@.len() implies in_range_p(#[trigger] cells@[k]) by {
                    assert(cells@.contains(cells@[k]));
                    assert(self.cells().contains((cells@[k].0 as int, cells@[k].1 as int)));
                    assert(in_range_i((cells@[k].0 as int, cells@[k].1 as int)));
                }
                assert forall|p: (int, int)|
                    fresh.cells().contains(p) == self.cells().contains(p) by {
                    if crate::hashlife::coord_set(cells@).contains(p) {
                        let m = choose|m: int|
                            0 <= m < cells@.len() && (#[trigger] cells@[m]).0 == p.0 && cells@[m].1
                                == p.1;
                        assert(cells@.contains(cells@[m]));
                    }
                    if self.cells().contains(p) {
                        assert(in_range_i(p));
                        assert(cells@.contains((p.0 as i64, p.1 as i64)));
                        let m = choose|m: int|
                            0 <= m < cells@.len() && cells@[m] == (p.0 as i64, p.1 as i64);
                        assert((#[trigger] cells@[m]).0 == p.0 && cells@[m].1 == p.1);
                        assert(crate::hashlife::coord_set(cells@).contains(p));
                    }
                }
            }
        }
        fresh
    }

    /// Every live cell has machine-representable coordinates.
    pub proof fn lemma_cells_machine(self)
        requires
            self.wf(),
        ensures
            forall|q: (int, int)|
                self.cells().contains(q) ==> i64::MIN <= q.0 <= i64::MAX && i64::MIN <= q.1
                    <= i64::MAX,
    {
        match self {
            Engine::Arena(e) => e.lemma_cells_bounded(),
            Engine::Sparse(e) => e.lemma_cells_bounded(),
            Engine::Hash(e) => e.lemma_cells_bounded(),
        }
    }

    /// Whether any live cell lies in the half-open world rectangle
    /// `[x0, x1) x [y0, y1)`: the membership test behind area-sampled
    /// rendering at sub-pixel zoom.
    pub fn any_live_in_rect(&self, x0: i64, x1: i64, y0: i64, y1: i64) -> (r: bool)
        requires
            self.wf(),
        ensures
            r == exists|q: (int, int)|
                #[trigger] self.cells().contains(q) && x0 <= q.0 < x1 && y0 <= q.1 < y1,
    {
        let out = self.export();
        let mut i: usize = 0;
        while i < out.len()
            invariant
                self.wf(),
                0 <= i <= out@.len(),
                forall|p: (i64, i64)|
                    out@.contains(p) <==> self.cells().contains((p.0 as int, p.1 as int)),
                forall|k: int|
                    0 <= k < i ==> !(x0 <= (#[trigger] out@[k]).0 < x1 && y0 <= out@[k].1 < y1),
            decreases out@.len() - i,
        {
            let p = out[i];
            if x0 <= p.0 && p.0 < x1 && y0 <= p.1 && p.1 < y1 {
                proof {
                    assert(out@.contains(out@[i as int]));
                    assert(self.cells().contains((p.0 as int, p.1 as int)));
                }
                return true;
            }
            i = i + 1;
        }
        proof {
            self.lemma_cells_machine();
            if exists|q: (int, int)|
                #[trigger] self.cells().contains(q) && x0 <= q.0 < x1 && y0 <= q.1 < y1 {
                let q = choose|q: (int, int)|
                    #[trigger] self.cells().contains(q) && x0 <= q.0 < x1 && y0 <= q.1 < y1;
                assert(out@.contains((q.0 as i64, q.1 as i64)));
                let k = choose|k: int| 0 <= k < out@.len() && out@[k] == (q.0 as i64, q.1 as i64);
                assert(!(x0 <= out@[k].0 < x1 && y0 <= out@[k].1 < y1));
                assert(false);
            }
        }
        false
    }

    /// Renders the live cells inside the world window with corner
    /// `(min_x, min_y)` and `scale` pixels per cell (an integer zoom of
    /// one or more) into the row-major byte buffer: a pixel is 255
    /// exactly when its world cell is live, 0 otherwise.
    pub fn draw_to_buffer(
        &self,
        min_x: i64,
        min_y: i64,
        scale: u32,
        buffer: &mut Vec<u8>,
        width: usize,
        height: usize,
    )
        requires
            self.wf(),
            scale >= 1,
            old(buffer)@.len() == width * height,
            width <= 0x10000,
            height <= 0x10000,
            -0x1000_0000_0000 <= min_x <= 0x1000_0000_0000,
            -0x1000_0000_0000 <= min_y <= 0x1000_0000_0000,
        ensures
            final(buffer)@.len() == old(buffer)@.len(),
            forall|px: int, py: int|
                0 <= px < width && 0 <= py < height ==> #[trigger] final(buffer)@[py * width + px]
                    == (if self.cells().contains(
                    (min_x + px / (scale as int), min_y + py / (scale as int)),
                ) {
                    255u8
                } else {
                    0u8
                }),
    {
        let mut py: usize = 0;
        while py < height
            invariant
                self.wf(),
                scale >= 1,
                buffer@.len() == width * height,
                width <= 0x10000,
                height <= 0x10000,
                -0x1000_0000_0000 <= min_x <= 0x1000_0000_0000,
                -0x1000_0000_0000 <= min_y <= 0x1000_0000_0000,
                0 <= py <= height,
                forall|qx: int, qy: int|
                    0 <= qx < width && 0 <= qy < py ==> #[trigger] buffer@[qy * width + qx] == (
                    if self.cells().contains(
                        (min_x + qx / (scale as int), min_y + qy / (scale as int)),
                    ) {
                        255u8
                    } else {
                        0u8
                    }),
            decreases height - py,
        {
            let wy: i64 = min_y + ((py as u32 / scale) as i64);
            let mut px: usize = 0;
            while px < width
                invariant
                    self.wf(),
                    scale >= 1,
                    buffer@.len() == width * height,
                    width <= 0x10000,
                    height <= 0x10000,
                    -0x1000_0000_0000 <= min_x <= 0x1000_0000_0000,
                    -0x1000_0000_0000 <= min_y <= 0x1000_0000_0000,
                    0 <= py < height,
                    0 <= px <= width,
                    wy == min_y + (py as int) / (scale as int),
                    forall|qx: int, qy: int|
                        0 <= qx < width && 0 <= qy < py ==> #[trigger] buffer@[qy * width + qx]
                            == (if self.cells().contains(
                            (min_x + qx / (scale as int), min_y + qy / (scale as int)),
                        ) {
                            255u8
                        } else {
                            0u8
                        }),
                    forall|qx: int|
                        0 <= qx < px ==> #[trigger] buffer@[py * width + qx] == (if self.cells().contains(
                            (min_x + qx / (scale as int), min_y + (py as int) / (scale as int)),
                        ) {
                            255u8
                        } else {
                            0u8
                        }),
                decreases width - px,
            {
                let wx: i64 = min_x + ((px as u32 / scale) as i64);
                let live = self.get_cell(wx, wy);
                proof {
                    assert(py * width + px < width * height) by (nonlinear_arith)
                        requires
                            0 <= px < width && 0 <= py < height,
                    ;
                    assert(width * height <= 0x100000000) by (nonlinear_arith)
                        requires
                            width <= 0x10000 && height <= 0x10000,
                    ;
                }
                let idx: usize = py * width + px;
                buffer[idx] = if live {
                    255
                } else {
                    0
                };
                proof {
                    assert forall|qx: int, qy: int|
                        0 <= qx < width && 0 <= qy < py implies #[trigger] buffer@[qy * width + qx] == (
                    if self.cells().contains(
                        (min_x + qx / (scale as int), min_y + qy / (scale as int)),
                    ) {
                        255u8
                    } else {
                        0u8
                    }) by {
                        assert(qy * width + qx < py * width + px) by (nonlinear_arith)
                            requires
                                0 <= qx < width && 0 <= qy < py && 0 <= px,
                        ;
                    }
                }
                px = px + 1;
            }
            py = py + 1;
        }
    }
}

/// Coordinates every engine accepts exactly: close enough to the origin
/// that the quadtree engine's bounded expansion always covers them.
pub open spec fn in_range(x: i64, y: i64) -> bool {
    -0x7FFFF8 <= x <= 0x7FFFF8 && -0x7FFFF8 <= y <= 0x7FFFF8
}

/// `in_range` over a coordinate pair.
pub open spec fn in_range_p(p: (i64, i64)) -> bool {
    in_range(p.0, p.1)
}

/// `in_range` over a mathematical point.
pub open spec fn in_range_i(p: (int, int)) -> bool {
    -0x7FFFF8 <= p.0 <= 0x7FFFF8 && -0x7FFFF8 <= p.1 <= 0x7FFFF8
}

/// Builds a fresh, empty universe on the chosen engine.
pub fn create_engine(mode: EngineMode) -> (r: Engine)
    ensures
        r.wf(),
        r.mode_of() == mode,
        r.cells() =~= Set::<(int, int)>::empty(),
        r.spec_generation() == 0,
{
    match mode {
        EngineMode::ArenaLife => Engine::Arena(ArenaLife::new()),
        EngineMode::SparseLife => Engine::Sparse(SparseLife::new()),
        EngineMode::HashLife => Engine::Hash(Hashlife::new()),
    }
}

} // verus!
