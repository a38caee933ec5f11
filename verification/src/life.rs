//! The mathematical model: Conway's Game of Life (B3/S23) on the infinite
//! integer plane, as a transformer of sets of live cells, together with the
//! bit-level helpers the packed engines are specified with.

use vstd::prelude::*;

verus! {

/// 1 for a live cell, 0 for a dead one; lets neighbour counts be sums.
pub open spec fn b2i(b: bool) -> int {
    if b {
        1
    } else {
        0
    }
}

/// Number of live cells among the eight neighbours of `(x, y)`.
pub open spec fn neighbor_count(s: Set<(int, int)>, x: int, y: int) -> int {
    b2i(s.contains((x - 1, y - 1))) + b2i(s.contains((x, y - 1))) + b2i(s.contains((x + 1, y - 1)))
        + b2i(s.contains((x - 1, y))) + b2i(s.contains((x + 1, y))) + b2i(
        s.contains((x - 1, y + 1)),
    ) + b2i(s.contains((x, y + 1))) + b2i(s.contains((x + 1, y + 1)))
}

/// The B3/S23 rule: a cell is live next generation iff it has three live
/// neighbours, or it is live now and has two.
pub open spec fn life_rule(alive: bool, neighbors: int) -> bool {
    neighbors == 3 || (alive && neighbors == 2)
}

/// One generation of the whole (infinite) universe.
pub open spec fn life_next(s: Set<(int, int)>) -> Set<(int, int)> {
    Set::new(|p: (int, int)| life_rule(s.contains(p), neighbor_count(s, p.0, p.1)))
}

/// `n` generations of the whole universe.
pub open spec fn life_steps(n: nat, s: Set<(int, int)>) -> Set<(int, int)>
    decreases n,
{
    if n == 0 {
        s
    } else {
        life_steps((n - 1) as nat, life_next(s))
    }
}

/// Bit `i` of a packed 64-cell row, bit 0 being the westernmost cell.
pub open spec fn bit64(w: u64, i: int) -> bool {
    0 <= i < 64 && (w >> (i as u64)) & 1u64 == 1u64
}

/// A cell live after one generation has a live cell within one step of
/// it in the generation before (possibly itself).
pub proof fn lemma_life_next_neighbor(s: Set<(int, int)>, p: (int, int))
    requires
        life_next(s).contains(p),
    ensures
        exists|q: (int, int)|
            #[trigger] s.contains(q) && p.0 - 1 <= q.0 <= p.0 + 1 && p.1 - 1 <= q.1 <= p.1 + 1,
{
    let x = p.0;
    let y = p.1;
    if s.contains(p) {
        assert(s.contains(p) && p.0 - 1 <= p.0 <= p.0 + 1 && p.1 - 1 <= p.1 <= p.1 + 1);
    } else if s.contains((x - 1, y - 1)) {
        assert(s.contains((x - 1, y - 1)));
    } else if s.contains((x, y - 1)) {
        assert(s.contains((x, y - 1)));
    } else if s.contains((x + 1, y - 1)) {
        assert(s.contains(((x + 1, y - 1))));
    } else if s.contains((x - 1, y)) {
        assert(s.contains(((x - 1, y))));
    } else if s.contains((x + 1, y)) {
        assert(s.contains(((x + 1, y))));
    } else if s.contains((x - 1, y + 1)) {
        assert(s.contains(((x - 1, y + 1))));
    } else if s.contains((x, y + 1)) {
        assert(s.contains(((x, y + 1))));
    } else if s.contains((x + 1, y + 1)) {
        assert(s.contains(((x + 1, y + 1))));
    } else {
        assert(neighbor_count(s, x, y) == 0);
        assert(!life_rule(s.contains(p), 0));
        assert(false);
    }
}

/// Stepping `n+1` generations is one generation after stepping `n`.
pub proof fn lemma_life_steps_snoc(s: Set<(int, int)>, n: nat)
    ensures
        life_steps(n + 1, s) == life_next(life_steps(n, s)),
    decreases n,
{
    assert(life_steps(n + 1, s) == life_steps(n, life_next(s)));
    if n == 0 {
        assert(life_steps(0, life_next(s)) == life_next(s));
        assert(life_steps(0, s) == s);
    } else {
        lemma_life_steps_snoc(life_next(s), (n - 1) as nat);
        assert(life_steps(n, life_next(s)) == life_next(life_steps((n - 1) as nat, life_next(s))));
        assert(life_steps(n, s) == life_steps((n - 1) as nat, life_next(s)));
    }
}

/// One generation at a point depends only on the point's own 3x3
/// neighbourhood: two states that agree there step to the same value.
pub proof fn lemma_life_next_local(s1: Set<(int, int)>, s2: Set<(int, int)>, p: (int, int))
    requires
        forall|q: (int, int)|
            p.0 - 1 <= q.0 <= p.0 + 1 && p.1 - 1 <= q.1 <= p.1 + 1 ==> #[trigger] s1.contains(q)
                == s2.contains(q),
    ensures
        life_next(s1).contains(p) == life_next(s2).contains(p),
{
    assert(s1.contains(p) == s2.contains(p));
    assert(s1.contains((p.0 - 1, p.1 - 1)) == s2.contains((p.0 - 1, p.1 - 1)));
    assert(s1.contains((p.0, p.1 - 1)) == s2.contains((p.0, p.1 - 1)));
    assert(s1.contains((p.0 + 1, p.1 - 1)) == s2.contains((p.0 + 1, p.1 - 1)));
    assert(s1.contains((p.0 - 1, p.1)) == s2.contains((p.0 - 1, p.1)));
    assert(s1.contains((p.0 + 1, p.1)) == s2.contains((p.0 + 1, p.1)));
    assert(s1.contains((p.0 - 1, p.1 + 1)) == s2.contains((p.0 - 1, p.1 + 1)));
    assert(s1.contains((p.0, p.1 + 1)) == s2.contains((p.0, p.1 + 1)));
    assert(s1.contains((p.0 + 1, p.1 + 1)) == s2.contains((p.0 + 1, p.1 + 1)));
    assert(neighbor_count(s1, p.0, p.1) == neighbor_count(s2, p.0, p.1));
}

/// A still life is a pattern one generation maps to itself.
pub open spec fn is_still_life(s: Set<(int, int)>) -> bool {
    life_next(s) =~= s
}

/// Stepping leaves a still life unchanged, for any number of generations.
pub proof fn lemma_still_life_steps(s: Set<(int, int)>, n: nat)
    requires
        is_still_life(s),
    ensures
        life_steps(n, s) =~= s,
    decreases n,
{
    if n > 0 {
        lemma_still_life_steps(s, (n - 1) as nat);
    }
}

} // verus!
