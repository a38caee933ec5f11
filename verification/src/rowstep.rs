//! One packed row of the block step.
//!
//! A 64-cell row advances one generation from three packed rows (the row
//! above, the row itself, the row below) and six border bits entering from
//! the west and east neighbour blocks.  The neighbour counts of all 64 cells
//! are formed at once by a SWAR half-adder chain over the eight shifted row
//! copies; the proof relates every output bit to the B3/S23 rule.

use vstd::prelude::*;

use crate::life::b2i;
use crate::life::bit64;
use crate::life::life_rule;

verus! {

/// The cell west of cell `x`: border bit `wb` for `x == 0`, else bit `x-1`.
pub open spec fn west_bit(v: u64, wb: u64, x: int) -> bool {
    if x == 0 {
        wb == 1
    } else {
        bit64(v, x - 1)
    }
}

/// The cell east of cell `x`: border bit `eb` for `x == 63`, else bit `x+1`.
pub open spec fn east_bit(v: u64, eb: u64, x: int) -> bool {
    if x == 63 {
        eb == 1
    } else {
        bit64(v, x + 1)
    }
}

/// Live neighbours of cell `x` of the middle row, over the three rows and
/// the six border bits.
pub open spec fn row_count(
    up: u64,
    mid: u64,
    dn: u64,
    wu: u64,
    wc: u64,
    wd: u64,
    eu: u64,
    ec: u64,
    ed: u64,
    x: int,
) -> int {
    b2i(west_bit(up, wu, x)) + b2i(bit64(up, x)) + b2i(east_bit(up, eu, x)) + b2i(
        west_bit(mid, wc, x),
    ) + b2i(east_bit(mid, ec, x)) + b2i(west_bit(dn, wd, x)) + b2i(bit64(dn, x)) + b2i(
        east_bit(dn, ed, x),
    )
}

/// What the stepped row must hold at cell `x`.
pub open spec fn row_rule(
    up: u64,
    mid: u64,
    dn: u64,
    wu: u64,
    wc: u64,
    wd: u64,
    eu: u64,
    ec: u64,
    ed: u64,
    x: int,
) -> bool {
    life_rule(bit64(mid, x), row_count(up, mid, dn, wu, wc, wd, eu, ec, ed, x))
}

/// The SWAR computation itself: three bit-planes `s0`, `s1`, `s2` add up the
/// eight aligned neighbour planes, and the rule combines them with the row.
pub open spec fn swar_row(
    up: u64,
    mid: u64,
    dn: u64,
    wu: u64,
    wc: u64,
    wd: u64,
    eu: u64,
    ec: u64,
    ed: u64,
) -> u64 {
    let l_up = (up << 1u64) | wu;
    let r_up = (up >> 1u64) | (eu << 63u64);
    let l_mid = (mid << 1u64) | wc;
    let r_mid = (mid >> 1u64) | (ec << 63u64);
    let l_dn = (dn << 1u64) | wd;
    let r_dn = (dn >> 1u64) | (ed << 63u64);
    let s0a = l_up;
    let c0b = s0a & up;
    let s0b = s0a ^ up;
    let s1b = c0b;
    let c0c = s0b & r_up;
    let s0c = s0b ^ r_up;
    let c1c = s1b & c0c;
    let s1c = s1b ^ c0c;
    let s2c = c1c;
    let c0d = s0c & l_mid;
    let s0d = s0c ^ l_mid;
    let c1d = s1c & c0d;
    let s1d = s1c ^ c0d;
    let s2d = s2c | c1d;
    let c0e = s0d & r_mid;
    let s0e = s0d ^ r_mid;
    let c1e = s1d & c0e;
    let s1e = s1d ^ c0e;
    let s2e = s2d | c1e;
    let c0f = s0e & l_dn;
    let s0f = s0e ^ l_dn;
    let c1f = s1e & c0f;
    let s1f = s1e ^ c0f;
    let s2f = s2e | c1f;
    let c0g = s0f & dn;
    let s0g = s0f ^ dn;
    let c1g = s1f & c0g;
    let s1g = s1f ^ c0g;
    let s2g = s2f | c1g;
    let c0h = s0g & r_dn;
    let s0h = s0g ^ r_dn;
    let c1h = s1g & c0h;
    let s1h = s1g ^ c0h;
    let s2h = s2g | c1h;
    (s1h & !s2h) & (mid | s0h)
}

/// Bit-vector form of `west_bit`.
pub open spec fn west_set(v: u64, wb: u64, x: u64) -> bool {
    if x == 0 {
        wb == 1
    } else {
        (v >> ((x - 1) as u64)) & 1u64 == 1u64
    }
}

/// Bit-vector form of `east_bit`.
pub open spec fn east_set(v: u64, eb: u64, x: u64) -> bool {
    if x == 63 {
        eb == 1
    } else {
        (v >> ((x + 1) as u64)) & 1u64 == 1u64
    }
}

/// Each output bit of the SWAR row equals the B3/S23 rule applied to the
/// eight neighbour bits of that cell.
pub proof fn lemma_swar_row_bit(
    up: u64,
    mid: u64,
    dn: u64,
    wu: u64,
    wc: u64,
    wd: u64,
    eu: u64,
    ec: u64,
    ed: u64,
    x: u64,
)
    by (bit_vector)
    requires
        x < 64,
        wu <= 1,
        wc <= 1,
        wd <= 1,
        eu <= 1,
        ec <= 1,
        ed <= 1,
    ensures
        ((swar_row(up, mid, dn, wu, wc, wd, eu, ec, ed) >> x) & 1u64 == 1u64) == ({
            let cnt = (if west_set(up, wu, x) {
                1int
            } else {
                0int
            }) + (if (up >> x) & 1u64 == 1u64 {
                1int
            } else {
                0int
            }) + (if east_set(up, eu, x) {
                1int
            } else {
                0int
            }) + (if west_set(mid, wc, x) {
                1int
            } else {
                0int
            }) + (if east_set(mid, ec, x) {
                1int
            } else {
                0int
            }) + (if west_set(dn, wd, x) {
                1int
            } else {
                0int
            }) + (if (dn >> x) & 1u64 == 1u64 {
                1int
            } else {
                0int
            }) + (if east_set(dn, ed, x) {
                1int
            } else {
                0int
            });
            cnt == 3 || (cnt == 2 && (mid >> x) & 1u64 == 1u64)
        }),
{
}

/// Advances the middle row one generation.
pub fn step_row(
    up: u64,
    mid: u64,
    dn: u64,
    wu: u64,
    wc: u64,
    wd: u64,
    eu: u64,
    ec: u64,
    ed: u64,
) -> (r: u64)
    requires
        wu <= 1,
        wc <= 1,
        wd <= 1,
        eu <= 1,
        ec <= 1,
        ed <= 1,
    ensures
        r == swar_row(up, mid, dn, wu, wc, wd, eu, ec, ed),
        forall|x: int|
            0 <= x < 64 ==> (bit64(r, x) <==> row_rule(up, mid, dn, wu, wc, wd, eu, ec, ed, x)),
{
    let l_up: u64 = (up << 1u64) | wu;
    let r_up: u64 = (up >> 1u64) | (eu << 63u64);
    let l_mid: u64 = (mid << 1u64) | wc;
    let r_mid: u64 = (mid >> 1u64) | (ec << 63u64);
    let l_dn: u64 = (dn << 1u64) | wd;
    let r_dn: u64 = (dn >> 1u64) | (ed << 63u64);
    let s0a: u64 = l_up;
    let c0b: u64 = s0a & up;
    let s0b: u64 = s0a ^ up;
    let s1b: u64 = c0b;
    let c0c: u64 = s0b & r_up;
    let s0c: u64 = s0b ^ r_up;
    let c1c: u64 = s1b & c0c;
    let s1c: u64 = s1b ^ c0c;
    let s2c: u64 = c1c;
    let c0d: u64 = s0c & l_mid;
    let s0d: u64 = s0c ^ l_mid;
    let c1d: u64 = s1c & c0d;
    let s1d: u64 = s1c ^ c0d;
    let s2d: u64 = s2c | c1d;
    let c0e: u64 = s0d & r_mid;
    let s0e: u64 = s0d ^ r_mid;
    let c1e: u64 = s1d & c0e;
    let s1e: u64 = s1d ^ c0e;
    let s2e: u64 = s2d | c1e;
    let c0f: u64 = s0e & l_dn;
    let s0f: u64 = s0e ^ l_dn;
    let c1f: u64 = s1e & c0f;
    let s1f: u64 = s1e ^ c0f;
    let s2f: u64 = s2e | c1f;
    let c0g: u64 = s0f & dn;
    let s0g: u64 = s0f ^ dn;
    let c1g: u64 = s1f & c0g;
    let s1g: u64 = s1f ^ c0g;
    let s2g: u64 = s2f | c1g;
    let c0h: u64 = s0g & r_dn;
    let s0h: u64 = s0g ^ r_dn;
    let c1h: u64 = s1g & c0h;
    let s1h: u64 = s1g ^ c0h;
    let s2h: u64 = s2g | c1h;
    let r: u64 = (s1h & !s2h) & (mid | s0h);
    proof {
        assert(r == swar_row(up, mid, dn, wu, wc, wd, eu, ec, ed));
        assert forall|x: int| 0 <= x < 64 implies (bit64(r, x) <==> row_rule(
            up,
            mid,
            dn,
            wu,
            wc,
            wd,
            eu,
            ec,
            ed,
            x,
        )) by {
            lemma_swar_row_bit(up, mid, dn, wu, wc, wd, eu, ec, ed, x as u64);
            assert(west_set(up, wu, x as u64) == west_bit(up, wu, x));
            assert(east_set(up, eu, x as u64) == east_bit(up, eu, x));
            assert(west_set(mid, wc, x as u64) == west_bit(mid, wc, x));
            assert(east_set(mid, ec, x as u64) == east_bit(mid, ec, x));
            assert(west_set(dn, wd, x as u64) == west_bit(dn, wd, x));
            assert(east_set(dn, ed, x as u64) == east_bit(dn, ed, x));
        }
    }
    r
}

} // verus!
