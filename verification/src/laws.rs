//! The cross-cutting laws of the engine interface, stated once over the
//! views the engines' own contracts use.

use vstd::prelude::*;

use crate::cache::HashlifeCache;
use crate::engine::in_range_i;
use crate::engine::in_range_p;
use crate::engine::Engine;
use crate::hashlife::coord_set;
use crate::node::no_dups;

verus! {

/// Importing a list of coordinates and exporting again yields exactly
/// that list's set of cells: the state after an import on any engine
/// holds the imported set, and an export read off that state contains a
/// coordinate exactly when the imported list does.
pub proof fn lemma_import_export_round_trip(
    imported: Engine,
    coords: Seq<(i64, i64)>,
    out: Seq<(i64, i64)>,
)
    requires
        forall|k: int| 0 <= k < coords.len() ==> in_range_p(#[trigger] coords[k]),
        imported.cells() == coord_set(coords),
        forall|p: (i64, i64)|
            #[trigger] out.contains(p) <==> imported.cells().contains((p.0 as int, p.1 as int)),
    ensures
        forall|p: (i64, i64)| #[trigger] out.contains(p) <==> coords.contains(p),
{
    assert forall|p: (i64, i64)| #[trigger] out.contains(p) <==> coords.contains(p) by {
        if out.contains(p) {
            assert(coord_set(coords).contains((p.0 as int, p.1 as int)));
            let k = choose|k: int|
                0 <= k < coords.len() && (#[trigger] coords[k]).0 == p.0 && coords[k].1 == p.1;
            assert(coords[k] == p);
        }
        if coords.contains(p) {
            let k = choose|k: int| 0 <= k < coords.len() && coords[k] == p;
            assert((#[trigger] coords[k]).0 == p.0 && coords[k].1 == p.1);
            assert(coord_set(coords).contains((p.0 as int, p.1 as int)));
        }
    }
}

/// Exporting and importing the result leaves the live set unchanged: the
/// state after importing an engine's own export holds the engine's own
/// cells.
pub proof fn lemma_export_import_identity(
    source: Engine,
    out: Seq<(i64, i64)>,
    reloaded: Engine,
)
    requires
        forall|p: (int, int)| source.cells().contains(p) ==> in_range_i(p),
        forall|p: (i64, i64)|
            #[trigger] out.contains(p) <==> source.cells().contains((p.0 as int, p.1 as int)),
        reloaded.cells() == coord_set(out),
    ensures
        reloaded.cells() =~= source.cells(),
{
    assert forall|p: (int, int)|
        reloaded.cells().contains(p) == source.cells().contains(p) by {
        if coord_set(out).contains(p) {
            let k = choose|k: int|
                0 <= k < out.len() && (#[trigger] out[k]).0 == p.0 && out[k].1 == p.1;
            assert(out.contains(out[k]));
        }
        if source.cells().contains(p) {
            assert(in_range_i(p));
            assert(out.contains((p.0 as i64, p.1 as i64)));
            let k = choose|k: int| 0 <= k < out.len() && out[k] == (p.0 as i64, p.1 as i64);
            assert((#[trigger] out[k]).0 == p.0 && out[k].1 == p.1);
            assert(coord_set(out).contains(p));
        }
    }
}

/// One generation of the sparse engine is exactly one generation of the
/// rule: the two directions its step contract states combine to set
/// equality whenever the next generation stays on the signed 64-bit
/// grid.
pub proof fn lemma_sparse_step_exact(
    pre: crate::sparse::SparseLife,
    post: crate::sparse::SparseLife,
)
    requires
        forall|p: (int, int)|
            post.scells().contains(p) ==> crate::life::life_next(pre.scells()).contains(p),
        forall|p: (int, int)|
            (crate::life::life_next(pre.scells()).contains(p) && crate::sparse::cell_in_safe(
                p.0,
                p.1,
            )) ==> post.scells().contains(p),
        forall|p: (int, int)|
            crate::life::life_next(pre.scells()).contains(p) ==> crate::sparse::cell_in_safe(
                p.0,
                p.1,
            ),
    ensures
        post.scells() =~= crate::life::life_next(pre.scells()),
{
}

/// Writing one cell twice to the same value leaves the same state as
/// writing it once: the live sets the two writes produce coincide, for
/// both values of the write.
pub proof fn lemma_set_cell_idempotent(s: Set<(int, int)>, p: (int, int))
    ensures
        s.insert(p).insert(p) =~= s.insert(p),
        s.remove(p).remove(p) =~= s.remove(p),
{
}

/// Canonical sharing: any two slab entries of a well-formed cache that
/// hold the same payload are the same entry, so equal branch data always
/// resolves to one shared node.
pub proof fn lemma_canonical_node(c: HashlifeCache, i: int, j: int)
    requires
        c.wf(),
        0 <= i < c.len(),
        0 <= j < c.len(),
        c.nodes@[i].data == c.nodes@[j].data,
    ensures
        i == j,
{
}

/// The quadtree root square is always the one centred on the world point
/// `(8, 8)`: its origin is determined by its level alone, so every step's
/// origin shift keeps world coordinates of live cells in place.
pub proof fn lemma_centred_origin(u: crate::hashlife::Hashlife)
    requires
        u.wf(),
    ensures
        u.origin_x == 8 - crate::node::level_size(u.root_level() - 1),
        u.origin_y == 8 - crate::node::level_size(u.root_level() - 1),
{
}

/// Across one warp or single-generation jump the root drops one level
/// and the origin moves by exactly `2^(L-1)` in both axes, `L` the new
/// root level: both follow from the centred-square invariant, so world
/// coordinates of live cells never drift.
pub proof fn lemma_step_origin_shift(before: crate::hashlife::Hashlife, after: crate::hashlife::Hashlife)
    requires
        before.wf(),
        after.wf(),
        after.root_level() == before.root_level() - 1,
    ensures
        after.origin_x == before.origin_x + crate::node::level_size(after.root_level() - 1),
        after.origin_y == before.origin_y + crate::node::level_size(after.root_level() - 1),
{
    vstd::arithmetic::power2::lemma_pow2_unfold((before.root_level() - 1) as nat);
}

/// A duplicate-free list's set has the list's length.
pub proof fn lemma_no_dup_set_cardinality<A>(out: Seq<A>)
    requires
        no_dups(out),
    ensures
        out.to_set().finite(),
        out.to_set().len() == out.len(),
    decreases out.len(),
{
    if out.len() > 0 {
        let prefix = out.drop_last();
        assert(no_dups(prefix));
        lemma_no_dup_set_cardinality(prefix);
        assert(!prefix.contains(out.last())) by {
            if prefix.contains(out.last()) {
                let k = choose|k: int| 0 <= k < prefix.len() && prefix[k] == out.last();
                assert(out[k] == out.last());
            }
        }
        assert(out.to_set() =~= prefix.to_set().insert(out.last())) by {
            assert forall|p: A|
                out.to_set().contains(p) == prefix.to_set().insert(out.last()).contains(p) by {
                if out.contains(p) {
                    let k = choose|k: int| 0 <= k < out.len() && out[k] == p;
                    if k < prefix.len() {
                        assert(prefix[k] == p);
                        assert(prefix.contains(p));
                    }
                }
                if prefix.contains(p) {
                    let k = choose|k: int| 0 <= k < prefix.len() && prefix[k] == p;
                    assert(out[k] == p);
                    assert(out.contains(p));
                }
                if p == out.last() {
                    assert(out.contains(p));
                }
            }
        }
        assert(!prefix.to_set().contains(out.last()));
    } else {
        assert(out.to_set() =~= Set::<A>::empty());
    }
}

/// A duplicate-free listing of a set of cells within machine range
/// counts that set: the set is finite and as large as the listing.
pub proof fn lemma_listing_counts(cells: Set<(int, int)>, out: Seq<(i64, i64)>)
    requires
        no_dups(out),
        forall|p: (i64, i64)|
            #[trigger] out.contains(p) <==> cells.contains((p.0 as int, p.1 as int)),
        forall|q: (int, int)|
            cells.contains(q) ==> i64::MIN <= q.0 <= i64::MAX && i64::MIN <= q.1 <= i64::MAX,
    ensures
        cells.finite(),
        cells.len() == out.len(),
{
    let ms = out.map_values(|p: (i64, i64)| (p.0 as int, p.1 as int));
    assert(no_dups(ms)) by {
        assert forall|i: int, j: int| 0 <= i < j < ms.len() implies ms[i] != ms[j] by {
            assert(ms[i] == (out[i].0 as int, out[i].1 as int));
            assert(ms[j] == (out[j].0 as int, out[j].1 as int));
        }
    }
    lemma_no_dup_set_cardinality(ms);
    assert(cells =~= ms.to_set()) by {
        assert forall|q: (int, int)| cells.contains(q) == ms.to_set().contains(q) by {
            if cells.contains(q) {
                assert(out.contains((q.0 as i64, q.1 as i64)));
                let k = choose|k: int| 0 <= k < out.len() && out[k] == (q.0 as i64, q.1 as i64);
                assert(ms[k] == q);
                assert(ms.contains(q));
            }
            if ms.contains(q) {
                let k = choose|k: int| 0 <= k < ms.len() && ms[k] == q;
                assert(ms[k] == (out[k].0 as int, out[k].1 as int));
                assert(out.contains(out[k]));
            }
        }
    }
    assert(ms.len() == out.len());
}

} // verus!
