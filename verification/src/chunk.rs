//! A 64x64 tile of cells packed into sixty-four 64-bit rows.

use vstd::prelude::*;

use crate::life::b2i;
use crate::life::bit64;
use crate::life::life_rule;
use crate::rowstep::east_bit;
use crate::rowstep::row_rule;
use crate::rowstep::step_row;
use crate::rowstep::west_bit;

verus! {

/// Side length of a tile, in cells.
pub const CHUNK_SIZE: i32 = 64;

/// A 64x64 cell tile.  Row `y` holds the 64 cells of local y-coordinate `y`;
/// bit `x` of a row (bit 0 the least significant) is the cell at local
/// x-coordinate `x`, so bit 0 sits westernmost.
#[derive(Clone, Copy, Debug)]
pub struct BitChunk {
    pub data: [u64; 64],
}

/// The nine tiles around and including a centre tile, spread over
/// `[-64, 128) x [-64, 128)`: `c` covers `[0,64)^2`, `s`/`n` adjoin below
/// and above in y, `w`/`e` in x, and the four corners diagonally.
#[verifier::opaque]
pub open spec fn nine_cell9(
    c: BitChunk,
    sw: BitChunk,
    s: BitChunk,
    se: BitChunk,
    w: BitChunk,
    e: BitChunk,
    nw: BitChunk,
    n: BitChunk,
    ne: BitChunk,
    gx: int,
    gy: int,
) -> bool {
    if gy < 0 {
        if gx < 0 {
            sw.cell(gx + 64, gy + 64)
        } else if gx < 64 {
            s.cell(gx, gy + 64)
        } else {
            se.cell(gx - 64, gy + 64)
        }
    } else if gy < 64 {
        if gx < 0 {
            w.cell(gx + 64, gy)
        } else if gx < 64 {
            c.cell(gx, gy)
        } else {
            e.cell(gx - 64, gy)
        }
    } else {
        if gx < 0 {
            nw.cell(gx + 64, gy - 64)
        } else if gx < 64 {
            n.cell(gx, gy - 64)
        } else {
            ne.cell(gx - 64, gy - 64)
        }
    }
}

/// Live cells among the eight neighbours of `(gx, gy)` in the nine-tile
/// neighbourhood.
pub open spec fn nine_count9(
    c: BitChunk,
    sw: BitChunk,
    s: BitChunk,
    se: BitChunk,
    w: BitChunk,
    e: BitChunk,
    nw: BitChunk,
    n: BitChunk,
    ne: BitChunk,
    gx: int,
    gy: int,
) -> int {
    b2i(nine_cell9(c, sw, s, se, w, e, nw, n, ne, gx - 1, gy - 1)) + b2i(
        nine_cell9(c, sw, s, se, w, e, nw, n, ne, gx, gy - 1),
    ) + b2i(nine_cell9(c, sw, s, se, w, e, nw, n, ne, gx + 1, gy - 1)) + b2i(
        nine_cell9(c, sw, s, se, w, e, nw, n, ne, gx - 1, gy),
    ) + b2i(nine_cell9(c, sw, s, se, w, e, nw, n, ne, gx + 1, gy)) + b2i(
        nine_cell9(c, sw, s, se, w, e, nw, n, ne, gx - 1, gy + 1),
    ) + b2i(nine_cell9(c, sw, s, se, w, e, nw, n, ne, gx, gy + 1)) + b2i(
        nine_cell9(c, sw, s, se, w, e, nw, n, ne, gx + 1, gy + 1),
    )
}

/// The cell at `(gx, gy)` of the neighbourhood given as a 3x3 array
/// (`n[0]` the southern row of tiles, `n[2]` the northern, `n[_][0]` the
/// western column, `n[1][1]` unused: the centre is `c`).
pub open spec fn nine_cell(c: BitChunk, n: [[&BitChunk; 3]; 3], gx: int, gy: int) -> bool {
    nine_cell9(
        c,
        *n[0][0],
        *n[0][1],
        *n[0][2],
        *n[1][0],
        *n[1][2],
        *n[2][0],
        *n[2][1],
        *n[2][2],
        gx,
        gy,
    )
}

/// Live neighbours of `(gx, gy)` in the 3x3 array form.
pub open spec fn nine_count(c: BitChunk, n: [[&BitChunk; 3]; 3], gx: int, gy: int) -> int {
    nine_count9(
        c,
        *n[0][0],
        *n[0][1],
        *n[0][2],
        *n[1][0],
        *n[1][2],
        *n[2][0],
        *n[2][1],
        *n[2][2],
        gx,
        gy,
    )
}

impl BitChunk {
    /// The cell at local coordinate `(x, y)`; dead outside the tile.
    pub open spec fn cell(self, x: int, y: int) -> bool {
        0 <= x < 64 && 0 <= y < 64 && bit64(self.data[y], x)
    }

    /// An all-dead tile.
    pub fn new() -> (r: Self)
        ensures
            forall|x: int, y: int| !r.cell(x, y),
            forall|y: int| 0 <= y < 64 ==> r.data[y] == 0u64,
    {
        let r = Self { data: [0u64; 64] };
        proof {
            assert forall|x: int, y: int| !r.cell(x, y) by {
                if 0 <= x < 64 && 0 <= y < 64 {
                    assert(r.data[y] == 0u64);
                    lemma_zero_row(x as u64);
                }
            }
        }
        r
    }

    /// Writes the cell at `(x, y)`; a coordinate outside the tile is a no-op.
    pub fn set(&mut self, x: i32, y: i32, value: bool)
        ensures
            forall|xx: int, yy: int|
                final(self).cell(xx, yy) == if xx == x && yy == y && 0 <= x < 64 && 0 <= y < 64 {
                    value
                } else {
                    old(self).cell(xx, yy)
                },
            forall|yy: int| 0 <= yy < 64 && yy != y ==> final(self).data[yy] == old(self).data[yy],
    {
        if x < 0 || x >= CHUNK_SIZE || y < 0 || y >= CHUNK_SIZE {
            return ;
        }
        let xs: u64 = x as u64;
        let row: u64 = self.data[y as usize];
        let updated: u64 = if value {
            row | (1u64 << xs)
        } else {
            row & !(1u64 << xs)
        };
        self.data[y as usize] = updated;
        proof {
            let xv = x as int;
            assert forall|xx: int, yy: int|
                final(self).cell(xx, yy) == if xx == xv && yy == y && 0 <= xv < 64 && 0 <= y < 64 {
                    value
                } else {
                    old(self).cell(xx, yy)
                } by {
                if 0 <= xx < 64 && 0 <= yy < 64 {
                    if yy == y {
                        assert(final(self).data[yy] == updated);
                        if value {
                            lemma_set_bit(row, xs, xx as u64);
                        } else {
                            lemma_clear_bit(row, xs, xx as u64);
                        }
                        assert((xx as u64) == xs <==> xx == xv);
                    } else {
                        assert(final(self).data[yy] == old(self).data[yy]);
                    }
                }
            }
        }
    }

    /// Reads the cell at `(x, y)`; false outside the tile.
    pub fn get(&self, x: i32, y: i32) -> (r: bool)
        ensures
            r == self.cell(x as int, y as int),
    {
        if x < 0 || x >= CHUNK_SIZE || y < 0 || y >= CHUNK_SIZE {
            return false;
        }
        let row: u64 = self.data[y as usize];
        (row >> (x as u64)) & 1u64 == 1u64
    }

    /// Advances the whole tile one generation, reading border context from
    /// the 3x3 array of surrounding tiles (`n[1][1]` is ignored; `self` is
    /// the centre; `n[0]` adjoins the south edge, `n[2]` the north edge,
    /// `n[_][0]` the west edge, `n[_][2]` the east edge).  Also reports
    /// whether any cell of the result is live.
    #[verifier::loop_isolation(false)]
    #[verifier::rlimit(100)]
    pub fn step_bitwise_9(&self, n: [[&BitChunk; 3]; 3]) -> (r: (BitChunk, bool))
        ensures
            forall|x: int, y: int|
                0 <= x < 64 && 0 <= y < 64 ==> (r.0.cell(x, y) <==> life_rule(
                    self.cell(x, y),
                    nine_count(*self, n, x, y),
                )),
            r.1 == exists|y: int| 0 <= y < 64 && r.0.data[y] != 0u64,
    {
        let b_sw: &BitChunk = n[0][0];
        let b_s: &BitChunk = n[0][1];
        let b_se: &BitChunk = n[0][2];
        let b_w: &BitChunk = n[1][0];
        let b_e: &BitChunk = n[1][2];
        let b_nw: &BitChunk = n[2][0];
        let b_n: &BitChunk = n[2][1];
        let b_ne: &BitChunk = n[2][2];
        let mut next_data: [u64; 64] = [0u64; 64];
        let mut any_alive: bool = false;
        let mut yi: usize = 0;
        while yi < 64
            invariant
                0 <= yi <= 64,
                forall|x: int, y: int|
                    0 <= x < 64 && 0 <= y < yi ==> (bit64(next_data[y], x) <==> life_rule(
                        self.cell(x, y),
                        nine_count9(*self, *b_sw, *b_s, *b_se, *b_w, *b_e, *b_nw, *b_n, *b_ne, x, y),
                    )),
                any_alive == exists|y: int| 0 <= y < yi && next_data[y] != 0u64,
            decreases 64 - yi,
        {
            let up: u64 = if yi == 63 {
                b_n.data[0]
            } else {
                self.data[yi + 1]
            };
            let dn: u64 = if yi == 0 {
                b_s.data[63]
            } else {
                self.data[yi - 1]
            };
            let mid: u64 = self.data[yi];
            let wu: u64 = if yi == 63 {
                (b_nw.data[0] >> 63u64) & 1u64
            } else {
                (b_w.data[yi + 1] >> 63u64) & 1u64
            };
            let wc: u64 = (b_w.data[yi] >> 63u64) & 1u64;
            let wd: u64 = if yi == 0 {
                (b_sw.data[63] >> 63u64) & 1u64
            } else {
                (b_w.data[yi - 1] >> 63u64) & 1u64
            };
            let eu: u64 = if yi == 63 {
                b_ne.data[0] & 1u64
            } else {
                b_e.data[yi + 1] & 1u64
            };
            let ec: u64 = b_e.data[yi] & 1u64;
            let ed: u64 = if yi == 0 {
                b_se.data[63] & 1u64
            } else {
                b_e.data[yi - 1] & 1u64
            };
            proof {
                lemma_and1_le();
            }
            let res: u64 = step_row(up, mid, dn, wu, wc, wd, eu, ec, ed);
            proof {
                let yv = yi as int;
                assert forall|x: int| 0 <= x < 64 implies (bit64(res, x) <==> life_rule(
                    self.cell(x, yv),
                    nine_count9(*self, *b_sw, *b_s, *b_se, *b_w, *b_e, *b_nw, *b_n, *b_ne, x, yv),
                )) by {
                    assert(bit64(res, x) <==> row_rule(up, mid, dn, wu, wc, wd, eu, ec, ed, x));
                    lemma_row_context(
                        *self,
                        *b_sw,
                        *b_s,
                        *b_se,
                        *b_w,
                        *b_e,
                        *b_nw,
                        *b_n,
                        *b_ne,
                        up,
                        mid,
                        dn,
                        wu,
                        wc,
                        wd,
                        eu,
                        ec,
                        ed,
                        x,
                        yv,
                    );
                }
            }
            let ghost prev = next_data@;
            next_data[yi] = res;
            if res != 0 {
                any_alive = true;
            }
            proof {
                let yv = yi as int;
                assert(next_data@ =~= prev.update(yv, res));
                if res != 0u64 {
                    assert(next_data[yv] != 0u64);
                    assert(exists|y: int| 0 <= y < yv + 1 && next_data[y] != 0u64);
                } else {
                    assert(forall|y: int| 0 <= y < yv ==> next_data[y] == prev[y]);
                    assert forall|y: int| 0 <= y < yv + 1 && next_data[y] != 0u64 implies (0 <= y
                        < yv && prev[y] != 0u64) by {
                        assert(next_data[yv] == 0u64);
                    }
                    assert(forall|y: int| 0 <= y < yv && prev[y] != 0u64 ==> next_data[y] != 0u64);
                    assert(any_alive == exists|y: int| 0 <= y < yv + 1 && next_data[y] != 0u64);
                }
            }
            yi = yi + 1;
        }
        let out = BitChunk { data: next_data };
        proof {
            assert(forall|y: int| 0 <= y < 64 ==> out.data[y] == next_data[y]);
            if any_alive {
                let wy = choose|y: int| 0 <= y < 64 && next_data[y] != 0u64;
                assert(out.data[wy] != 0u64);
            } else {
                assert(forall|y: int| 0 <= y < 64 ==> next_data[y] == 0u64);
                assert(forall|y: int| 0 <= y < 64 ==> out.data[y] == 0u64);
            }
            assert(any_alive == exists|y: int| 0 <= y < 64 && out.data[y] != 0u64);
        }
        let ret = (out, any_alive);
        proof {
            assert(ret.0 == out);
            assert(ret.1 == any_alive);
            assert(ret.1 == exists|y: int| 0 <= y < 64 && ret.0.data[y] != 0u64);
        }
        ret
    }
}

/// An all-zero row has no live bit.
pub proof fn lemma_zero_row(i: u64)
    by (bit_vector)
    ensures
        (0u64 >> i) & 1u64 == 0u64,
{
}

/// Setting bit `x` leaves every other bit and makes bit `x` one.
pub proof fn lemma_set_bit(row: u64, x: u64, i: u64)
    by (bit_vector)
    requires
        x < 64,
        i < 64,
    ensures
        (((row | (1u64 << x)) >> i) & 1u64 == 1u64) == (if i == x {
            true
        } else {
            (row >> i) & 1u64 == 1u64
        }),
{
}

/// Clearing bit `x` leaves every other bit and makes bit `x` zero.
pub proof fn lemma_clear_bit(row: u64, x: u64, i: u64)
    by (bit_vector)
    requires
        x < 64,
        i < 64,
    ensures
        (((row & !(1u64 << x)) >> i) & 1u64 == 1u64) == (if i == x {
            false
        } else {
            (row >> i) & 1u64 == 1u64
        }),
{
}

/// Edge-bit extractions are at most one, and extracting bit zero with a
/// mask is the same as with a shift.
proof fn lemma_and1_le()
    by (bit_vector)
    ensures
        forall|v: u64| #![auto] (v >> 63u64) & 1u64 <= 1,
        forall|v: u64| #![auto] v & 1u64 <= 1,
        forall|v: u64| #![auto] (v & 1u64 == 1u64) == ((v >> 0u64) & 1u64 == 1u64),
{
}

/// The row inputs assembled for row `y` carry exactly the neighbourhood
/// cells: the row rule over them is the life rule over the nine-tile count.
#[verifier::rlimit(100)]
proof fn lemma_row_context(
    c: BitChunk,
    sw: BitChunk,
    s: BitChunk,
    se: BitChunk,
    w: BitChunk,
    e: BitChunk,
    nw: BitChunk,
    nn: BitChunk,
    ne: BitChunk,
    up: u64,
    mid: u64,
    dn: u64,
    wu: u64,
    wc: u64,
    wd: u64,
    eu: u64,
    ec: u64,
    ed: u64,
    x: int,
    y: int,
)
    requires
        0 <= x < 64,
        0 <= y < 64,
        mid == c.data[y],
        up == if y == 63 {
            nn.data[0]
        } else {
            c.data[y + 1]
        },
        dn == if y == 0 {
            s.data[63]
        } else {
            c.data[y - 1]
        },
        wu == if y == 63 {
            (nw.data[0] >> 63u64) & 1u64
        } else {
            (w.data[y + 1] >> 63u64) & 1u64
        },
        wc == (w.data[y] >> 63u64) & 1u64,
        wd == if y == 0 {
            (sw.data[63] >> 63u64) & 1u64
        } else {
            (w.data[y - 1] >> 63u64) & 1u64
        },
        eu == if y == 63 {
            ne.data[0] & 1u64
        } else {
            e.data[y + 1] & 1u64
        },
        ec == e.data[y] & 1u64,
        ed == if y == 0 {
            se.data[63] & 1u64
        } else {
            e.data[y - 1] & 1u64
        },
    ensures
        row_rule(up, mid, dn, wu, wc, wd, eu, ec, ed, x) == life_rule(
            c.cell(x, y),
            nine_count9(c, sw, s, se, w, e, nw, nn, ne, x, y),
        ),
{
    lemma_and1_le();
    assert(bit64(mid, x) == c.cell(x, y));
    assert(bit64(up, x) == nine_cell9(c, sw, s, se, w, e, nw, nn, ne, x, y + 1)) by {
        reveal(nine_cell9);
    }
    assert(bit64(dn, x) == nine_cell9(c, sw, s, se, w, e, nw, nn, ne, x, y - 1)) by {
        reveal(nine_cell9);
    }
    assert(west_bit(up, wu, x) == nine_cell9(c, sw, s, se, w, e, nw, nn, ne, x - 1, y + 1)) by {
        reveal(nine_cell9);
    }
    assert(west_bit(mid, wc, x) == nine_cell9(c, sw, s, se, w, e, nw, nn, ne, x - 1, y)) by {
        reveal(nine_cell9);
    }
    assert(west_bit(dn, wd, x) == nine_cell9(c, sw, s, se, w, e, nw, nn, ne, x - 1, y - 1)) by {
        reveal(nine_cell9);
    }
    assert(east_bit(up, eu, x) == nine_cell9(c, sw, s, se, w, e, nw, nn, ne, x + 1, y + 1)) by {
        reveal(nine_cell9);
    }
    assert(east_bit(mid, ec, x) == nine_cell9(c, sw, s, se, w, e, nw, nn, ne, x + 1, y)) by {
        reveal(nine_cell9);
    }
    assert(east_bit(dn, ed, x) == nine_cell9(c, sw, s, se, w, e, nw, nn, ne, x + 1, y - 1)) by {
        reveal(nine_cell9);
    }
    assert(c.cell(x, y) == nine_cell9(c, sw, s, se, w, e, nw, nn, ne, x, y)) by {
        reveal(nine_cell9);
    }
}

} // verus!
