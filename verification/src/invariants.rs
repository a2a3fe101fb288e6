//! The inductive invariants of complex construction: what holds of the
//! partition and the per-node records after every processed prefix.
use vstd::prelude::*;

use crate::graph::{GraphEdge, edge_touch, nbrs_of};
use crate::model::{
    BuildCtx, BuildState, abs_gap, best_cell, cells_of, data_of, destroy_data, destroy_saddle,
    grade_gt, higher_of, init_state, merge_reprs, opt_pos, run_to, seed_at, steepest_pair, step_anc, step_data_pre,
    step_lifetime, step_reprs, step_saddle, step_state, strictly_better, union_reprs,
};
use crate::points::{Lifetime, MorseData};

verus! {

/// The node a destroyed basin was merged into, under the premise that the
/// record marks a destroyed basin.
pub open spec fn parent_of(d: Option<MorseData>) -> usize {
    match data_of(d).merge_parent {
        Some(p) => p,
        None => 0,
    }
}

/// The ancestor recorded at position `j` points at a seed that owns itself.
pub open spec fn anc_ok(c: BuildCtx, st: BuildState, k: int, j: int) -> bool {
    exists|q: int|
        0 <= q < k && c.order[q] == data_of(st.data[j]).ancestor && seed_at(c, q) && data_of(
            st.data[q],
        ).ancestor == c.order[q]
}

/// The merge event recorded at position `j` is consistent: the basin was a
/// seed, destroyed by a later saddle, its lifetime is the absolute scalar gap
/// to that saddle, and its merge parent is a more extreme seed.
pub open spec fn merge_ok(c: BuildCtx, st: BuildState, k: int, j: int) -> bool {
    let s = opt_pos(st.saddle[j]);
    &&& j < s < k
    &&& seed_at(c, j)
    &&& data_of(st.data[j]).merge_parent is Some
    &&& data_of(st.data[j]).lifetime == Lifetime::Finite(
        abs_gap(c.val_at(j), c.val_at(s)) as u64,
    )
    &&& exists|m: int|
        0 <= m < s && c.order[m] == parent_of(st.data[j]) && seed_at(c, m) && c.value_geq(
            c.order[m],
            c.order[j],
        )
}

/// Everything that holds of the construction state after the first `k`
/// positions have been processed.
pub open spec fn st_inv(c: BuildCtx, st: BuildState, k: int) -> bool {
    let n = c.n();
    &&& st.reprs.len() == n
    &&& st.data.len() == n
    &&& st.saddle.len() == n
    // unprocessed positions are untouched singletons
    &&& forall|j: int| k <= j < n ==> (#[trigger] st.reprs[j]) == j
    &&& forall|j: int| k <= j < n ==> (#[trigger] st.data[j]) is None
    &&& forall|j: int| k <= j < n ==> (#[trigger] st.saddle[j]) is None
    // processed positions have records, and their basins stay processed
    &&& forall|j: int| 0 <= j < k ==> (#[trigger] st.data[j]) is Some
    &&& forall|j: int| 0 <= j < k ==> (#[trigger] st.reprs[j]) < k
    // the representative table is idempotent
    &&& forall|j: int| 0 <= j < n ==> st.reprs[(#[trigger] st.reprs[j]) as int] == st.reprs[j]
    // a basin's representative is a seed, at least as extreme as each member
    &&& forall|j: int| 0 <= j < k ==> seed_at(c, (#[trigger] st.reprs[j]) as int)
    &&& forall|j: int|
        0 <= j < k ==> c.value_geq(c.order[(#[trigger] st.reprs[j]) as int], c.order[j])
    // infinite persistence marks exactly the live representatives
    &&& forall|j: int|
        0 <= j < k ==> ((data_of(#[trigger] st.data[j]).lifetime == Lifetime::Infinite) <==> st.reprs[j]
            == j)
    // a non-seed is absorbed with zero persistence and no merge event
    &&& forall|j: int|
        0 <= j < k && !seed_at(c, j) ==> data_of(#[trigger] st.data[j]).lifetime
            == Lifetime::Finite(0) && data_of(st.data[j]).merge_parent is None
    // a never-destroyed seed keeps its infinite persistence
    &&& forall|j: int|
        0 <= j < k && seed_at(c, j) && data_of(#[trigger] st.data[j]).merge_parent is None
            ==> data_of(st.data[j]).lifetime == Lifetime::Infinite
    // ancestors point at seeds that own themselves
    &&& forall|j: int| 0 <= j < k ==> anc_ok(c, st, k, j)
    // merge events come with saddles, and are consistent
    &&& forall|j: int|
        0 <= j < k ==> (data_of(#[trigger] st.data[j]).merge_parent is Some <==> st.saddle[j] is Some)
    &&& forall|j: int| 0 <= j < k && (#[trigger] st.saddle[j]) is Some ==> merge_ok(c, st, k, j)
    // an edge whose endpoints are both processed joins one basin
    &&& forall|e: int|
        0 <= e < c.edges.len() && (c.pos[(#[trigger] c.edges[e]).a as int] as int) < k && (c.pos[
            c.edges[e].b as int] as int) < k ==> st.reprs[c.pos[c.edges[e].a as int] as int]
            == st.reprs[c.pos[c.edges[e].b as int] as int]
}

/// Every neighbor entry names a node of the graph.
pub proof fn lemma_nbrs_ok(edges: Seq<GraphEdge>, v: usize, n: int)
    requires
        forall|j: int| 0 <= j < edges.len() ==> (#[trigger] edges[j]).a < n && edges[j].b < n,
    ensures
        forall|q: int|
            0 <= q < nbrs_of(edges, v).len() ==> ((#[trigger] nbrs_of(edges, v)[q]).0 as int) < n,
    decreases edges.len(),
{
    if edges.len() > 0 {
        assert(forall|j: int|
            0 <= j < edges.drop_last().len() ==> (#[trigger] edges.drop_last()[j]).a < n
                && edges.drop_last()[j].b < n);
        lemma_nbrs_ok(edges.drop_last(), v, n);
        let pre = nbrs_of(edges.drop_last(), v);
        let full = nbrs_of(edges, v);
        assert(edges[edges.len() - 1] == edges.last());
        assert forall|q: int| 0 <= q < full.len() implies ((#[trigger] full[q]).0 as int) < n by {
            if q < pre.len() {
                assert(full[q] == pre[q]);
            } else {
                assert(full[q] == edge_touch(edges.last(), v)[q - pre.len()]);
            }
        }
    }
}

/// Every edge that touches `v` contributes its other endpoint to `v`'s
/// neighbor list.
pub proof fn lemma_nbrs_contains(edges: Seq<GraphEdge>, v: usize, j: int)
    requires
        0 <= j < edges.len(),
        edges[j].a == v || edges[j].b == v,
    ensures
        nbrs_of(edges, v).contains(
            (
                if edges[j].a == v {
                    edges[j].b
                } else {
                    edges[j].a
                },
                edges[j].weight,
            ),
        ),
    decreases edges.len(),
{
    let e = edges[j];
    let entry = (
        if e.a == v {
            e.b
        } else {
            e.a
        },
        e.weight,
    );
    if j == edges.len() - 1 {
        assert(nbrs_of(edges, v) == nbrs_of(edges.drop_last(), v) + edge_touch(e, v));
        assert(edge_touch(e, v)[0] == entry);
        let t = nbrs_of(edges.drop_last(), v).len() as int;
        assert(nbrs_of(edges, v)[t] == entry);
    } else {
        lemma_nbrs_contains(edges.drop_last(), v, j);
        let pre = nbrs_of(edges.drop_last(), v);
        let t = choose|t: int| 0 <= t < pre.len() && pre[t] == entry;
        assert(nbrs_of(edges, v)[t] == entry);
    }
}

/// Every processed-neighbor entry sits at a position before `i`.
pub proof fn lemma_higher_elems(nbrs: Seq<(usize, u64)>, pos: Seq<usize>, i: int)
    ensures
        forall|q: int|
            0 <= q < higher_of(nbrs, pos, i).len() ==> ((#[trigger] higher_of(nbrs, pos, i)[q]).0
                as int) < i,
    decreases nbrs.len(),
{
    if nbrs.len() > 0 {
        lemma_higher_elems(nbrs.drop_last(), pos, i);
        let rest = higher_of(nbrs.drop_last(), pos, i);
        let full = higher_of(nbrs, pos, i);
        assert forall|q: int| 0 <= q < full.len() implies ((#[trigger] full[q]).0 as int) < i by {
            if q < rest.len() {
                assert(full[q] == rest[q]);
            }
        }
    }
}

/// A neighbor at a position before `i` appears in the processed-neighbor list.
pub proof fn lemma_higher_contains(nbrs: Seq<(usize, u64)>, pos: Seq<usize>, i: int, q: int)
    requires
        0 <= q < nbrs.len(),
        (pos[nbrs[q].0 as int] as int) < i,
    ensures
        higher_of(nbrs, pos, i).contains((pos[nbrs[q].0 as int], nbrs[q].1)),
    decreases nbrs.len(),
{
    let entry = (pos[nbrs[q].0 as int], nbrs[q].1);
    if q == nbrs.len() - 1 {
        let rest = higher_of(nbrs.drop_last(), pos, i);
        assert(higher_of(nbrs, pos, i)[rest.len() as int] == entry);
    } else {
        lemma_higher_contains(nbrs.drop_last(), pos, i, q);
        let rest = higher_of(nbrs.drop_last(), pos, i);
        let t = choose|t: int| 0 <= t < rest.len() && rest[t] == entry;
        assert(higher_of(nbrs, pos, i)[t] == entry);
    }
}

/// The representative reached from any processed neighbor is one of the cells.
pub proof fn lemma_cells_contains(hs: Seq<(usize, u64)>, reprs: Seq<usize>, q: int)
    requires
        0 <= q < hs.len(),
    ensures
        cells_of(hs, reprs).contains(reprs[hs[q].0 as int]),
    decreases hs.len(),
{
    let r = reprs[hs[q].0 as int];
    if q == hs.len() - 1 {
        let pre = cells_of(hs.drop_last(), reprs);
        if pre.contains(r) {
        } else {
            assert(cells_of(hs, reprs)[pre.len() as int] == r);
        }
    } else {
        lemma_cells_contains(hs.drop_last(), reprs, q);
        let pre = cells_of(hs.drop_last(), reprs);
        let t = choose|t: int| 0 <= t < pre.len() && pre[t] == r;
        if pre.contains(reprs[hs.last().0 as int]) {
        } else {
            assert(cells_of(hs, reprs)[t] == r);
        }
    }
}

/// Every cell is the representative reached from some processed neighbor.
pub proof fn lemma_cells_elems(hs: Seq<(usize, u64)>, reprs: Seq<usize>)
    ensures
        forall|t: int|
            0 <= t < cells_of(hs, reprs).len() ==> exists|q: int|
                0 <= q < hs.len() && #[trigger] cells_of(hs, reprs)[t] == reprs[hs[q].0 as int],
    decreases hs.len(),
{
    if hs.len() > 0 {
        lemma_cells_elems(hs.drop_last(), reprs);
        let pre = cells_of(hs.drop_last(), reprs);
        let full = cells_of(hs, reprs);
        assert forall|t: int| 0 <= t < full.len() implies exists|q: int|
            0 <= q < hs.len() && #[trigger] full[t] == reprs[hs[q].0 as int] by {
            if t < pre.len() {
                let q = choose|q: int|
                    0 <= q < hs.drop_last().len() && pre[t] == reprs[hs.drop_last()[q].0 as int];
                assert(full[t] == reprs[hs[q].0 as int]);
            } else {
                let q = hs.len() - 1;
                assert(full[t] == reprs[hs[q].0 as int]);
            }
        }
    }
}

/// The cells are pairwise distinct.
pub proof fn lemma_cells_distinct(hs: Seq<(usize, u64)>, reprs: Seq<usize>)
    ensures
        forall|t1: int, t2: int|
            0 <= t1 < t2 < cells_of(hs, reprs).len() ==> #[trigger] cells_of(hs, reprs)[t1]
                != #[trigger] cells_of(hs, reprs)[t2],
    decreases hs.len(),
{
    if hs.len() > 0 {
        lemma_cells_distinct(hs.drop_last(), reprs);
        let pre = cells_of(hs.drop_last(), reprs);
        let full = cells_of(hs, reprs);
        assert forall|t1: int, t2: int| 0 <= t1 < t2 < full.len() implies #[trigger] full[t1]
            != #[trigger] full[t2] by {
            if t2 < pre.len() {
                assert(full[t1] == pre[t1] && full[t2] == pre[t2]);
            } else if full.len() > pre.len() {
                assert(full[t1] == pre[t1]);
                if pre[t1] == full[t2] {
                    assert(pre.contains(full[t2])) by {
                        assert(pre[t1] == full[t2]);
                    }
                    assert(false);
                }
            }
        }
    }
}

/// The surviving cell is one of the cells.
pub proof fn lemma_best_contains(c: BuildCtx, cells: Seq<usize>)
    requires
        cells.len() > 0,
    ensures
        cells.contains(best_cell(c, cells)),
    decreases cells.len(),
{
    if cells.len() > 1 {
        lemma_best_contains(c, cells.drop_last());
        if !strictly_better(c, cells.last(), best_cell(c, cells.drop_last())) {
            let b = best_cell(c, cells.drop_last());
            let t = choose|t: int| 0 <= t < cells.drop_last().len() && cells.drop_last()[t] == b;
            assert(cells[t] == b);
        }
    }
}

/// The surviving cell's extremum value is at least as extreme as every
/// cell's.
pub proof fn lemma_best_geq(c: BuildCtx, cells: Seq<usize>)
    requires
        cells.len() > 0,
    ensures
        forall|t: int|
            0 <= t < cells.len() ==> c.value_geq(
                c.order[best_cell(c, cells) as int],
                c.order[(#[trigger] cells[t]) as int],
            ),
    decreases cells.len(),
{
    if cells.len() > 1 {
        lemma_best_geq(c, cells.drop_last());
        assert(forall|t: int| 0 <= t < cells.len() - 1 ==> cells.drop_last()[t] == cells[t]);
    }
}

/// The steepest neighbor is one of the processed neighbors.
pub proof fn lemma_steepest_contains(c: BuildCtx, hs: Seq<(usize, u64)>)
    requires
        hs.len() > 0,
    ensures
        hs.contains(steepest_pair(c, hs)),
    decreases hs.len(),
{
    if hs.len() > 1 {
        lemma_steepest_contains(c, hs.drop_last());
        let b = steepest_pair(c, hs.drop_last());
        let cand = hs.last();
        if !grade_gt(c.val_at(cand.0 as int), cand.1, c.val_at(b.0 as int), b.1) {
            let t = choose|t: int| 0 <= t < hs.drop_last().len() && hs.drop_last()[t] == b;
            assert(hs[t] == b);
        }
    }
}

/// What the merge of position `i` and all of `cells` into `mc` does to each
/// entry of the representative table.
pub proof fn lemma_merge_reprs(reprs: Seq<usize>, cells: Seq<usize>, mc: usize, i: usize)
    requires
        (i as int) < reprs.len(),
        (mc as int) < reprs.len(),
        reprs[mc as int] == mc,
        reprs[i as int] == i,
        mc != i,
        forall|t: int|
            0 <= t < cells.len() ==> ((#[trigger] cells[t]) as int) < reprs.len() && reprs[cells[t] as int]
                == cells[t] && cells[t] != i,
    ensures
        merge_reprs(reprs, cells, mc, i).len() == reprs.len(),
        forall|z: int|
            0 <= z < reprs.len() ==> #[trigger] merge_reprs(reprs, cells, mc, i)[z] == (
            if cells.contains(reprs[z]) || reprs[z] == i || reprs[z] == mc {
                mc
            } else {
                reprs[z]
            }),
    decreases cells.len(),
{
    if cells.len() == 0 {
        assert forall|z: int| 0 <= z < reprs.len() implies #[trigger] merge_reprs(
            reprs,
            cells,
            mc,
            i,
        )[z] == (
        if cells.contains(reprs[z]) || reprs[z] == i || reprs[z] == mc {
            mc
        } else {
            reprs[z]
        }) by {
            assert(!cells.contains(reprs[z]));
        }
    } else {
        lemma_merge_reprs(reprs, cells.drop_last(), mc, i);
        let dl = cells.drop_last();
        let pre = merge_reprs(reprs, dl, mc, i);
        let cl = cells.last();
        let full = merge_reprs(reprs, cells, mc, i);
        assert(cells[cells.len() - 1] == cl);
        assert(cells.contains(cl));
        assert(pre[mc as int] == mc);
        assert forall|z: int| 0 <= z < reprs.len() implies #[trigger] full[z] == (
        if cells.contains(reprs[z]) || reprs[z] == i || reprs[z] == mc {
            mc
        } else {
            reprs[z]
        }) by {
            let rz = reprs[z];
            if cl == mc {
                assert(full[z] == pre[z]);
                if cells.contains(rz) {
                    lemma_contains_split(cells, rz);
                    assert(dl.contains(rz) || rz == mc);
                } else {
                    if dl.contains(rz) {
                        lemma_contains_grow(cells, rz);
                        assert(false);
                    }
                }
            } else {
                assert(full[z] == (
                if pre[z] == pre[mc as int] || pre[z] == pre[cl as int] {
                    pre[mc as int]
                } else {
                    pre[z]
                }));
                if dl.contains(cl) {
                    assert(pre[cl as int] == mc);
                    if dl.contains(rz) || rz == i || rz == mc {
                        assert(pre[z] == mc);
                        if dl.contains(rz) {
                            lemma_contains_grow(cells, rz);
                        }
                        assert(full[z] == mc);
                    } else {
                        assert(pre[z] == rz);
                        if rz == cl {
                            assert(dl.contains(rz));
                            assert(false);
                        }
                        if cells.contains(rz) {
                            lemma_contains_split(cells, rz);
                            assert(false);
                        }
                        assert(full[z] == rz);
                    }
                } else {
                    assert(pre[cl as int] == cl);
                    if dl.contains(rz) || rz == i || rz == mc {
                        assert(pre[z] == mc);
                        if dl.contains(rz) {
                            lemma_contains_grow(cells, rz);
                        }
                        assert(full[z] == mc);
                    } else {
                        assert(pre[z] == rz);
                        if rz == cl {
                            assert(full[z] == mc);
                        } else {
                            if cells.contains(rz) {
                                lemma_contains_split(cells, rz);
                                assert(false);
                            }
                            assert(rz != mc);
                            assert(full[z] == rz);
                        }
                    }
                }
            }
        }
    }
}

/// A member of a sequence is either a member of all but the last entry, or
/// the last entry itself.
pub proof fn lemma_contains_split<T>(s: Seq<T>, x: T)
    requires
        s.len() > 0,
        s.contains(x),
    ensures
        s.drop_last().contains(x) || s.last() == x,
{
    let t = choose|t: int| 0 <= t < s.len() && s[t] == x;
    if t < s.len() - 1 {
        assert(s.drop_last()[t] == x);
    }
}

/// A member of all but the last entry is a member.
pub proof fn lemma_contains_grow<T>(s: Seq<T>, x: T)
    requires
        s.len() > 0,
        s.drop_last().contains(x),
    ensures
        s.contains(x),
{
    let t = choose|t: int| 0 <= t < s.drop_last().len() && s.drop_last()[t] == x;
    assert(s[t] == x);
}

/// What the merge events of the saddle `i` do to each record.
pub proof fn lemma_destroy_data(
    c: BuildCtx,
    data: Seq<Option<MorseData>>,
    cells: Seq<usize>,
    mc: usize,
    i: usize,
)
    requires
        data.len() <= usize::MAX,
        forall|t: int| 0 <= t < cells.len() ==> ((#[trigger] cells[t]) as int) < data.len(),
    ensures
        destroy_data(c, data, cells, mc, i).len() == data.len(),
        forall|j: int|
            0 <= j < data.len() ==> #[trigger] destroy_data(c, data, cells, mc, i)[j] == (
            if cells.contains(j as usize) && j != mc {
                Some(
                    MorseData {
                        lifetime: Lifetime::Finite(
                            abs_gap(c.val_at(j), c.val_at(i as int)) as u64,
                        ),
                        merge_parent: Some(c.order[mc as int]),
                        ancestor: data_of(data[j]).ancestor,
                    },
                )
            } else {
                data[j]
            }),
    decreases cells.len(),
{
    if cells.len() > 0 {
        lemma_destroy_data(c, data, cells.drop_last(), mc, i);
        let dl = cells.drop_last();
        let pre = destroy_data(c, data, dl, mc, i);
        let cl = cells.last();
        let full = destroy_data(c, data, cells, mc, i);
        assert(cells[cells.len() - 1] == cl);
        assert(cells.contains(cl));
        assert forall|j: int| 0 <= j < data.len() implies #[trigger] full[j] == (
        if cells.contains(j as usize) && j != mc {
            Some(
                MorseData {
                    lifetime: Lifetime::Finite(abs_gap(c.val_at(j), c.val_at(i as int)) as u64),
                    merge_parent: Some(c.order[mc as int]),
                    ancestor: data_of(data[j]).ancestor,
                },
            )
        } else {
            data[j]
        }) by {
            if cl == mc {
                assert(full[j] == pre[j]);
                if cells.contains(j as usize) && j != mc {
                    lemma_contains_split(cells, j as usize);
                    assert(dl.contains(j as usize));
                } else {
                    if dl.contains(j as usize) {
                        lemma_contains_grow(cells, j as usize);
                    }
                }
            } else {
                assert(full[j] == pre.update(cl as int, full[cl as int])[j]);
                if j == cl as int {
                    assert(full[j] == Some(
                        MorseData {
                            lifetime: Lifetime::Finite(
                                abs_gap(c.val_at(cl as int), c.val_at(i as int)) as u64,
                            ),
                            merge_parent: Some(c.order[mc as int]),
                            ancestor: data_of(data[cl as int]).ancestor,
                        },
                    ));
                } else {
                    assert(full[j] == pre[j]);
                    if cells.contains(j as usize) && j != mc {
                        lemma_contains_split(cells, j as usize);
                        assert(dl.contains(j as usize));
                    } else {
                        if dl.contains(j as usize) {
                            lemma_contains_grow(cells, j as usize);
                        }
                    }
                }
            }
        }
    }
}

/// What the merge events of the saddle `i` do to each saddle record.
pub proof fn lemma_destroy_saddle(
    saddle: Seq<Option<usize>>,
    cells: Seq<usize>,
    mc: usize,
    i: usize,
)
    requires
        saddle.len() <= usize::MAX,
        forall|t: int| 0 <= t < cells.len() ==> ((#[trigger] cells[t]) as int) < saddle.len(),
    ensures
        destroy_saddle(saddle, cells, mc, i).len() == saddle.len(),
        forall|j: int|
            0 <= j < saddle.len() ==> #[trigger] destroy_saddle(saddle, cells, mc, i)[j] == (
            if cells.contains(j as usize) && j != mc {
                Some(i)
            } else {
                saddle[j]
            }),
    decreases cells.len(),
{
    if cells.len() > 0 {
        lemma_destroy_saddle(saddle, cells.drop_last(), mc, i);
        let dl = cells.drop_last();
        let pre = destroy_saddle(saddle, dl, mc, i);
        let cl = cells.last();
        let full = destroy_saddle(saddle, cells, mc, i);
        assert(cells[cells.len() - 1] == cl);
        assert(cells.contains(cl));
        assert forall|j: int| 0 <= j < saddle.len() implies #[trigger] full[j] == (
        if cells.contains(j as usize) && j != mc {
            Some(i)
        } else {
            saddle[j]
        }) by {
            if cl == mc {
                assert(full[j] == pre[j]);
                if cells.contains(j as usize) && j != mc {
                    lemma_contains_split(cells, j as usize);
                    assert(dl.contains(j as usize));
                } else {
                    if dl.contains(j as usize) {
                        lemma_contains_grow(cells, j as usize);
                    }
                }
            } else {
                assert(full[j] == pre.update(cl as int, Some(i))[j]);
                if j != cl as int {
                    if cells.contains(j as usize) && j != mc {
                        lemma_contains_split(cells, j as usize);
                        assert(dl.contains(j as usize));
                    } else {
                        if dl.contains(j as usize) {
                            lemma_contains_grow(cells, j as usize);
                        }
                    }
                }
            }
        }
    }
}

/// When all processed neighbors share one basin, every one of them reaches
/// the single cell.
pub proof fn lemma_single_cell(hs: Seq<(usize, u64)>, reprs: Seq<usize>)
    requires
        cells_of(hs, reprs).len() == 1,
    ensures
        forall|q: int|
            0 <= q < hs.len() ==> reprs[(#[trigger] hs[q]).0 as int] == cells_of(hs, reprs)[0],
{
    let cells = cells_of(hs, reprs);
    assert forall|q: int| 0 <= q < hs.len() implies reprs[(#[trigger] hs[q]).0 as int]
        == cells[0] by {
        lemma_cells_contains(hs, reprs, q);
        let t = choose|t: int| 0 <= t < cells.len() && cells[t] == reprs[hs[q].0 as int];
        assert(t == 0);
    }
}

/// An edge between the node being processed and an already-processed node
/// shows up among the processed neighbors.
pub proof fn lemma_edge_in_higher(c: BuildCtx, i: int, e: int)
    requires
        c.wf(),
        0 <= i < c.n(),
        0 <= e < c.edges.len(),
        ((c.pos[c.edges[e].a as int] as int) == i && (c.pos[c.edges[e].b as int] as int) < i) || (
        (c.pos[c.edges[e].b as int] as int) == i && (c.pos[c.edges[e].a as int] as int) < i),
    ensures
        c.higher_at(i).contains(
            (
                if (c.pos[c.edges[e].a as int] as int) == i {
                    c.pos[c.edges[e].b as int]
                } else {
                    c.pos[c.edges[e].a as int]
                },
                c.edges[e].weight,
            ),
        ),
{
    let a = c.edges[e].a;
    let b = c.edges[e].b;
    let w = c.edges[e].weight;
    if (c.pos[a as int] as int) == i {
        assert(c.order[i] == a);
        lemma_nbrs_contains(c.edges, a, e);
        let nbrs = nbrs_of(c.edges, a);
        let entry = (
            if c.edges[e].a == a {
                b
            } else {
                a
            },
            w,
        );
        assert(entry == (b, w));
        let q = choose|q: int| 0 <= q < nbrs.len() && nbrs[q] == (b, w);
        lemma_higher_contains(nbrs, c.pos, i, q);
    } else {
        assert(c.order[i] == b);
        lemma_nbrs_contains(c.edges, b, e);
        let nbrs = nbrs_of(c.edges, b);
        if c.edges[e].a == b {
            // a self-loop cannot have one endpoint processed and one not
            assert(false);
        }
        let q = choose|q: int| 0 <= q < nbrs.len() && nbrs[q] == (a, w);
        lemma_higher_contains(nbrs, c.pos, i, q);
    }
}

/// Processing one node preserves every invariant.
/// Processing a seed node preserves every invariant.
#[verifier::rlimit(100)]
proof fn lemma_step_inv_seed(c: BuildCtx, st: BuildState, i: int)
    requires
        c.wf(),
        st_inv(c, st, i),
        0 <= i < c.n(),
        c.higher_at(i).len() == 0,
    ensures
        st_inv(c, step_state(c, st, i), i + 1),
{
    let n = c.n();
    let hs = c.higher_at(i);
    let st2 = step_state(c, st, i);
    lemma_nbrs_ok(c.edges, c.order[i], n);
    lemma_higher_elems(nbrs_of(c.edges, c.order[i]), c.pos, i);
    assert(st2.reprs == st.reprs);
    assert(st2.saddle == st.saddle);
    assert(st2.data == st.data.update(
        i,
        Some(
            MorseData {
                lifetime: Lifetime::Infinite,
                merge_parent: None,
                ancestor: c.order[i],
            },
        ),
    ));
    assert(st.reprs[i] == i);
    assert(seed_at(c, i));
    assert forall|j: int| 0 <= j < i + 1 implies #[trigger] anc_ok(c, st2, i + 1, j) by {
        if j < i {
            assert(anc_ok(c, st, i, j));
            let q = choose|q: int|
                0 <= q < i && c.order[q] == data_of(st.data[j]).ancestor && seed_at(c, q)
                    && data_of(st.data[q]).ancestor == c.order[q];
            assert(st2.data[q] == st.data[q]);
            assert(st2.data[j] == st.data[j]);
            assert(0 <= q < i + 1 && c.order[q] == data_of(st2.data[j]).ancestor && seed_at(c, q)
                && data_of(st2.data[q]).ancestor == c.order[q]);
        } else {
            assert(data_of(st2.data[i]).ancestor == c.order[i]);
            assert(0 <= i < i + 1 && c.order[i] == data_of(st2.data[i]).ancestor && seed_at(c, i)
                && data_of(st2.data[i]).ancestor == c.order[i]);
        }
    }
    assert forall|j: int| 0 <= j < i + 1 && (#[trigger] st2.saddle[j]) is Some implies merge_ok(
        c,
        st2,
        i + 1,
        j,
    ) by {
        assert(j < i);
        assert(st2.data[j] == st.data[j]);
    }
    assert forall|e: int|
        0 <= e < c.edges.len() && (c.pos[(#[trigger] c.edges[e]).a as int] as int) < i + 1 && (
        c.pos[c.edges[e].b as int] as int) < i + 1 implies st2.reprs[c.pos[c.edges[e].a as int] as int]
        == st2.reprs[c.pos[c.edges[e].b as int] as int] by {
        let pa = c.pos[c.edges[e].a as int] as int;
        let pb = c.pos[c.edges[e].b as int] as int;
        if pa == i && pb == i {
        } else if pa == i || pb == i {
            lemma_edge_in_higher(c, i, e);
            assert(false);
        }
    }
    assert(st_inv(c, st2, i + 1));
}

/// Processing a node whose processed neighbors share one basin preserves
/// every invariant.
#[verifier::rlimit(100)]
proof fn lemma_step_inv_single(c: BuildCtx, st: BuildState, i: int)
    requires
        c.wf(),
        st_inv(c, st, i),
        0 <= i < c.n(),
        c.higher_at(i).len() > 0,
        cells_of(c.higher_at(i), st.reprs).len() == 1,
    ensures
        st_inv(c, step_state(c, st, i), i + 1),
{
    let n = c.n();
    let hs = c.higher_at(i);
    let st2 = step_state(c, st, i);
    lemma_nbrs_ok(c.edges, c.order[i], n);
    lemma_higher_elems(nbrs_of(c.edges, c.order[i]), c.pos, i);
    assert(forall|q: int| 0 <= q < hs.len() ==> ((#[trigger] hs[q]).0 as int) < i);
    let cells = cells_of(hs, st.reprs);
    let x0 = hs[0].0;
    assert((x0 as int) < i);
    lemma_cells_contains(hs, st.reprs, 0);
    assert(cells.len() >= 1);
    lemma_single_cell(hs, st.reprs);
    let rx = st.reprs[x0 as int];
    assert(rx < i);
    assert(st2.reprs == union_reprs(st.reprs, x0 as int, i));
    assert(st2.saddle == st.saddle);
    let anc = data_of(st.data[x0 as int]).ancestor;
    assert(st2.data == st.data.update(
        i,
        Some(
            MorseData {
                lifetime: Lifetime::Finite(0),
                merge_parent: None,
                ancestor: anc,
            },
        ),
    ));
    // the only entry of the table that changes is the one at `i`
    assert forall|z: int| 0 <= z < n && z != i implies #[trigger] st2.reprs[z]
        == st.reprs[z] by {
        if st.reprs[z] == st.reprs[x0 as int] {
            assert(st2.reprs[z] == st.reprs[x0 as int]);
        } else if st.reprs[z] == st.reprs[i] {
            assert(st.reprs[i] == i);
            if z < i {
                assert(st.reprs[z] < i);
                assert(false);
            } else {
                assert(st.reprs[z] == z);
                assert(false);
            }
        }
    }
    assert(st2.reprs[i] == rx);
    // value chain for the new member
    c.lemma_pos_value(x0 as int, i);
    assert(c.value_geq(c.order[rx as int], c.order[x0 as int]));
    assert(c.value_geq(c.order[rx as int], c.order[i]));
    // idempotence
    assert forall|j: int| 0 <= j < n implies st2.reprs[(#[trigger] st2.reprs[j]) as int]
        == st2.reprs[j] by {
        if j == i {
            assert(st2.reprs[rx as int] == st.reprs[rx as int]);
        } else {
            assert(st2.reprs[j] == st.reprs[j]);
            let rj = st.reprs[j];
            if (rj as int) == i {
                assert(false);
            }
            assert(st2.reprs[rj as int] == st.reprs[rj as int]);
        }
    }
    // ancestors
    assert forall|j: int| 0 <= j < i + 1 implies #[trigger] anc_ok(c, st2, i + 1, j) by {
        if j < i {
            assert(anc_ok(c, st, i, j));
            let q = choose|q: int|
                0 <= q < i && c.order[q] == data_of(st.data[j]).ancestor && seed_at(c, q)
                    && data_of(st.data[q]).ancestor == c.order[q];
            assert(st2.data[q] == st.data[q]);
            assert(st2.data[j] == st.data[j]);
            assert(0 <= q < i + 1 && c.order[q] == data_of(st2.data[j]).ancestor && seed_at(c, q)
                && data_of(st2.data[q]).ancestor == c.order[q]);
        } else {
            assert(anc_ok(c, st, i, x0 as int));
            let q = choose|q: int|
                0 <= q < i && c.order[q] == data_of(st.data[x0 as int]).ancestor
                    && seed_at(c, q) && data_of(st.data[q]).ancestor == c.order[q];
            assert(st2.data[q] == st.data[q]);
            assert(data_of(st2.data[i]).ancestor == anc);
            assert(0 <= q < i + 1 && c.order[q] == data_of(st2.data[i]).ancestor && seed_at(c, q)
                && data_of(st2.data[q]).ancestor == c.order[q]);
        }
    }
    // merge records
    assert forall|j: int|
        0 <= j < i + 1 && (#[trigger] st2.saddle[j]) is Some implies merge_ok(
        c,
        st2,
        i + 1,
        j,
    ) by {
        assert(j < i);
        assert(st2.data[j] == st.data[j]);
    }
    // edges
    assert forall|e: int|
        0 <= e < c.edges.len() && (c.pos[(#[trigger] c.edges[e]).a as int] as int) < i + 1
        && (c.pos[c.edges[e].b as int] as int) < i + 1 implies st2.reprs[c.pos[c.edges[e].a as int] as int]
        == st2.reprs[c.pos[c.edges[e].b as int] as int] by {
        let pa = c.pos[c.edges[e].a as int] as int;
        let pb = c.pos[c.edges[e].b as int] as int;
        if pa < i && pb < i {
            assert(st2.reprs[pa] == st.reprs[pa]);
            assert(st2.reprs[pb] == st.reprs[pb]);
        } else if pa == i && pb == i {
        } else {
            lemma_edge_in_higher(c, i, e);
            let p = if pa == i {
                pb
            } else {
                pa
            };
            let entry = (
                if pa == i {
                    c.pos[c.edges[e].b as int]
                } else {
                    c.pos[c.edges[e].a as int]
                },
                c.edges[e].weight,
            );
            let q = choose|q: int| 0 <= q < hs.len() && hs[q] == entry;
            assert(st.reprs[p] == cells[0]);
            assert(st2.reprs[p] == st.reprs[p]);
            assert(cells[0] == rx);
            assert(st2.reprs[i] == rx);
        }
    }
    assert(st_inv(c, st2, i + 1));
}


/// The shared facts of a true merge step: what the surviving cell, the cells,
/// and the pointwise effect of the merge look like.
pub open spec fn merge_facts(c: BuildCtx, st: BuildState, i: int) -> bool {
    let n = c.n();
    let hs = c.higher_at(i);
    let cells = cells_of(hs, st.reprs);
    let mc = best_cell(c, cells);
    let sp = steepest_pair(c, hs).0;
    &&& forall|q: int| 0 <= q < hs.len() ==> ((#[trigger] hs[q]).0 as int) < i
    &&& cells.len() >= 2
    &&& forall|t: int|
        0 <= t < cells.len() ==> ((#[trigger] cells[t]) as int) < i && st.reprs[cells[t] as int]
            == cells[t] && cells[t] != i && seed_at(c, cells[t] as int)
    &&& cells.contains(mc)
    &&& (mc as int) < i
    &&& st.reprs[mc as int] == mc
    &&& seed_at(c, mc as int)
    &&& forall|t: int|
        0 <= t < cells.len() ==> c.value_geq(c.order[mc as int], c.order[(#[trigger] cells[t]) as int])
    &&& (sp as int) < i
    &&& st.data[sp as int] is Some
    &&& st.reprs[i] == i
    &&& merge_reprs(st.reprs, cells, mc, i as usize).len() == n
    &&& forall|z: int|
        0 <= z < n ==> #[trigger] merge_reprs(st.reprs, cells, mc, i as usize)[z] == (
        if cells.contains(st.reprs[z]) || st.reprs[z] == i || st.reprs[z] == mc {
            mc
        } else {
            st.reprs[z]
        })
    &&& destroy_data(c, st.data, cells, mc, i as usize).len() == n
    &&& forall|j: int|
        0 <= j < n ==> #[trigger] destroy_data(c, st.data, cells, mc, i as usize)[j] == (
        if cells.contains(j as usize) && j != mc {
            Some(
                MorseData {
                    lifetime: Lifetime::Finite(abs_gap(c.val_at(j), c.val_at(i)) as u64),
                    merge_parent: Some(c.order[mc as int]),
                    ancestor: data_of(st.data[j]).ancestor,
                },
            )
        } else {
            st.data[j]
        })
    &&& destroy_saddle(st.saddle, cells, mc, i as usize).len() == n
    &&& forall|j: int|
        0 <= j < n ==> #[trigger] destroy_saddle(st.saddle, cells, mc, i as usize)[j] == (
        if cells.contains(j as usize) && j != mc {
            Some(i as usize)
        } else {
            st.saddle[j]
        })
    &&& forall|j: int|
        0 <= j < n && cells.contains(j as usize) ==> (#[trigger] st.reprs[j]) == j && j < i
            && seed_at(c, j) && data_of(st.data[j]).lifetime == Lifetime::Infinite && st.saddle[j] is None
            && data_of(st.data[j]).merge_parent is None
}

/// Establishes the shared facts of a true merge step.
#[verifier::rlimit(100)]
pub proof fn lemma_merge_facts(c: BuildCtx, st: BuildState, i: int)
    requires
        c.wf(),
        st_inv(c, st, i),
        0 <= i < c.n(),
        c.higher_at(i).len() > 0,
        cells_of(c.higher_at(i), st.reprs).len() != 1,
    ensures
        merge_facts(c, st, i),
{
    let n = c.n();
    let hs = c.higher_at(i);
    lemma_nbrs_ok(c.edges, c.order[i], n);
    lemma_higher_elems(nbrs_of(c.edges, c.order[i]), c.pos, i);
    assert(forall|q: int| 0 <= q < hs.len() ==> ((#[trigger] hs[q]).0 as int) < i);
    let cells = cells_of(hs, st.reprs);
    lemma_cells_contains(hs, st.reprs, 0);
    assert(cells.len() >= 1);
    let mc = best_cell(c, cells);
    let sp = steepest_pair(c, hs).0;
    lemma_best_contains(c, cells);
    lemma_best_geq(c, cells);
    lemma_steepest_contains(c, hs);
    lemma_cells_elems(hs, st.reprs);
    let qs = choose|q: int| 0 <= q < hs.len() && hs[q] == steepest_pair(c, hs);
    assert((sp as int) < i);
    assert forall|t: int| 0 <= t < cells.len() implies ((#[trigger] cells[t]) as int) < i
        && st.reprs[cells[t] as int] == cells[t] && cells[t] != i && seed_at(
        c,
        cells[t] as int,
    ) by {
        let q = choose|q: int|
            0 <= q < hs.len() && #[trigger] cells[t] == st.reprs[hs[q].0 as int];
        assert((hs[q].0 as int) < i);
        assert(st.reprs[hs[q].0 as int] < i);
    }
    let tm = choose|t: int| 0 <= t < cells.len() && cells[t] == mc;
    assert((mc as int) < i && st.reprs[mc as int] == mc && seed_at(c, mc as int));
    assert(st.reprs[i] == i);
    lemma_merge_reprs(st.reprs, cells, mc, i as usize);
    lemma_destroy_data(c, st.data, cells, mc, i as usize);
    lemma_destroy_saddle(st.saddle, cells, mc, i as usize);
    assert forall|j: int| 0 <= j < n && cells.contains(j as usize) implies (#[trigger] st.reprs[j])
        == j && j < i && seed_at(c, j) && data_of(st.data[j]).lifetime == Lifetime::Infinite
        && st.saddle[j] is None && data_of(st.data[j]).merge_parent is None by {
        let t = choose|t: int| 0 <= t < cells.len() && cells[t] == j as usize;
        assert(st.reprs[j] == j && j < i && seed_at(c, j));
        if st.saddle[j] is Some {
            assert(merge_ok(c, st, i, j));
            assert(false);
        }
    }
}

/// The representative table after a merge step keeps the invariants.
#[verifier::rlimit(100)]
proof fn lemma_merge_reprs_inv(c: BuildCtx, st: BuildState, i: int)
    requires
        c.wf(),
        st_inv(c, st, i),
        0 <= i < c.n(),
        c.higher_at(i).len() > 0,
        cells_of(c.higher_at(i), st.reprs).len() != 1,
        merge_facts(c, st, i),
    ensures
        step_state(c, st, i).reprs.len() == c.n(),
        forall|j: int| i + 1 <= j < c.n() ==> (#[trigger] step_state(c, st, i).reprs[j]) == j,
        forall|j: int| 0 <= j < i + 1 ==> (#[trigger] step_state(c, st, i).reprs[j]) < i + 1,
        forall|j: int|
            0 <= j < c.n() ==> step_state(c, st, i).reprs[(#[trigger] step_state(c, st, i).reprs[j])
                as int] == step_state(c, st, i).reprs[j],
        forall|j: int|
            0 <= j < i + 1 ==> seed_at(c, (#[trigger] step_state(c, st, i).reprs[j]) as int),
        forall|j: int|
            0 <= j < i + 1 ==> c.value_geq(
                c.order[(#[trigger] step_state(c, st, i).reprs[j]) as int],
                c.order[j],
            ),
{
    let n = c.n();
    let hs = c.higher_at(i);
    let st2 = step_state(c, st, i);
    let cells = cells_of(hs, st.reprs);
    let mc = best_cell(c, cells);
    assert(st2.reprs == merge_reprs(st.reprs, cells, mc, i as usize));
    assert forall|j: int| i + 1 <= j < n implies (#[trigger] st2.reprs[j]) == j by {
        assert(st.reprs[j] == j);
        if cells.contains(j as usize) {
            assert((j as usize as int) < i);
            assert(false);
        }
        assert(st2.reprs[j] == st.reprs[j]);
    }
    assert forall|j: int| 0 <= j < i + 1 implies (#[trigger] st2.reprs[j]) < i + 1 by {
        if st2.reprs[j] == mc {
        } else {
            assert(st2.reprs[j] == st.reprs[j]);
            if j < i {
            } else {
                assert(st.reprs[i] == i);
                assert(cells.contains(st.reprs[j]) || st.reprs[j] == i);
            }
        }
    }
    assert forall|j: int| 0 <= j < n implies st2.reprs[(#[trigger] st2.reprs[j]) as int]
        == st2.reprs[j] by {
        let rj = st.reprs[j];
        if cells.contains(rj) || rj == i || rj == mc {
            assert(st2.reprs[j] == mc);
            assert(cells.contains(st.reprs[mc as int]));
            assert(st2.reprs[mc as int] == mc);
        } else {
            assert(st2.reprs[j] == rj);
            assert(st.reprs[rj as int] == rj);
            assert(st2.reprs[rj as int] == rj);
        }
    }
    assert forall|j: int| 0 <= j < i + 1 implies seed_at(
        c,
        (#[trigger] st2.reprs[j]) as int,
    ) && c.value_geq(c.order[st2.reprs[j] as int], c.order[j]) by {
        let rj = st.reprs[j];
        if cells.contains(rj) || rj == i || rj == mc {
            assert(st2.reprs[j] == mc);
            if j == i {
                let h0 = hs[0].0;
                let r0 = st.reprs[h0 as int];
                lemma_cells_contains(hs, st.reprs, 0);
                let t0 = choose|t: int| 0 <= t < cells.len() && cells[t] == r0;
                assert(c.value_geq(c.order[mc as int], c.order[r0 as int]));
                assert(c.value_geq(c.order[r0 as int], c.order[h0 as int]));
                c.lemma_pos_value(h0 as int, i);
            } else {
                if cells.contains(rj) {
                    let t = choose|t: int| 0 <= t < cells.len() && cells[t] == rj;
                    assert(c.value_geq(c.order[mc as int], c.order[rj as int]));
                    assert(c.value_geq(c.order[rj as int], c.order[j]));
                } else if rj == i {
                    if j < i {
                        assert(st.reprs[j] < i);
                        assert(false);
                    }
                } else {
                    assert(c.value_geq(c.order[rj as int], c.order[j]));
                }
            }
        } else {
            assert(st2.reprs[j] == rj);
            if j == i {
                assert(rj == i);
                assert(false);
            }
        }
    }
}

/// The per-node records after a merge step keep the invariants.
#[verifier::rlimit(100)]
proof fn lemma_merge_data_inv(c: BuildCtx, st: BuildState, i: int)
    requires
        c.wf(),
        st_inv(c, st, i),
        0 <= i < c.n(),
        c.higher_at(i).len() > 0,
        cells_of(c.higher_at(i), st.reprs).len() != 1,
        merge_facts(c, st, i),
    ensures
        step_state(c, st, i).data.len() == c.n(),
        step_state(c, st, i).saddle.len() == c.n(),
        forall|j: int| i + 1 <= j < c.n() ==> (#[trigger] step_state(c, st, i).data[j]) is None,
        forall|j: int| i + 1 <= j < c.n() ==> (#[trigger] step_state(c, st, i).saddle[j]) is None,
        forall|j: int| 0 <= j < i + 1 ==> (#[trigger] step_state(c, st, i).data[j]) is Some,
        forall|j: int|
            0 <= j < i + 1 ==> ((data_of(#[trigger] step_state(c, st, i).data[j]).lifetime
                == Lifetime::Infinite) <==> step_state(c, st, i).reprs[j] == j),
        forall|j: int|
            0 <= j < i + 1 && !seed_at(c, j) ==> data_of(
                #[trigger] step_state(c, st, i).data[j],
            ).lifetime == Lifetime::Finite(0) && data_of(step_state(c, st, i).data[j]).merge_parent is None,
        forall|j: int|
            0 <= j < i + 1 && seed_at(c, j) && data_of(
                #[trigger] step_state(c, st, i).data[j],
            ).merge_parent is None ==> data_of(step_state(c, st, i).data[j]).lifetime
                == Lifetime::Infinite,
{
    let n = c.n();
    let hs = c.higher_at(i);
    let st2 = step_state(c, st, i);
    let cells = cells_of(hs, st.reprs);
    let mc = best_cell(c, cells);
    let dpre = destroy_data(c, st.data, cells, mc, i as usize);
    assert(st2.data == dpre.update(
        i,
        Some(
            MorseData {
                lifetime: Lifetime::Finite(0),
                merge_parent: None,
                ancestor: data_of(st.data[steepest_pair(c, hs).0 as int]).ancestor,
            },
        ),
    ));
    assert forall|j: int| i + 1 <= j < n implies (#[trigger] st2.data[j]) is None && (
    st2.saddle[j]) is None by {
        if cells.contains(j as usize) {
            assert((j as usize as int) < i);
            assert(false);
        }
    }
    // infinite persistence marks live representatives
    assert forall|j: int| 0 <= j < i + 1 implies ((data_of(
        #[trigger] st2.data[j],
    ).lifetime == Lifetime::Infinite) <==> st2.reprs[j] == j) by {
        if j == i {
            assert(data_of(st2.data[i]).lifetime == Lifetime::Finite(0));
            assert(st.reprs[i] == i);
            assert(st2.reprs[i] == mc);
            assert((mc as int) != i);
        } else if cells.contains(j as usize) && j != mc {
            assert(data_of(st2.data[j]).lifetime is Finite);
            assert(st.reprs[j] == j);
            assert(st2.reprs[j] == mc);
        } else if j == mc {
            assert(st2.data[j] == st.data[j]);
            assert(st.reprs[mc as int] == mc);
            assert(data_of(st.data[j]).lifetime == Lifetime::Infinite);
            assert(st2.reprs[mc as int] == mc);
        } else {
            assert(st2.data[j] == st.data[j]);
            let rj = st.reprs[j];
            if rj == j {
                assert(!cells.contains(rj) && rj != i && rj != mc);
                assert(st2.reprs[j] == rj);
            } else {
                if st2.reprs[j] == mc {
                    assert((mc as int) != j);
                } else {
                    assert(st2.reprs[j] == rj);
                }
            }
        }
    }
    // absorbed non-seeds and surviving seeds
    assert forall|j: int| 0 <= j < i + 1 && !seed_at(c, j) implies data_of(
        #[trigger] st2.data[j],
    ).lifetime == Lifetime::Finite(0) && data_of(st2.data[j]).merge_parent is None by {
        if j == i {
        } else {
            if cells.contains(j as usize) && j != mc {
                assert(seed_at(c, j));
                assert(false);
            }
            assert(st2.data[j] == st.data[j]);
        }
    }
    assert forall|j: int|
        0 <= j < i + 1 && seed_at(c, j) && data_of(
            #[trigger] st2.data[j],
        ).merge_parent is None implies data_of(st2.data[j]).lifetime
        == Lifetime::Infinite by {
        if j == i {
            assert(!seed_at(c, j));
        } else if cells.contains(j as usize) && j != mc {
            assert(data_of(st2.data[j]).merge_parent is Some);
        } else {
            assert(st2.data[j] == st.data[j]);
        }
    }
}

/// The ancestor records after a merge step keep the invariants.
#[verifier::rlimit(100)]
proof fn lemma_merge_anc_inv(c: BuildCtx, st: BuildState, i: int)
    requires
        c.wf(),
        st_inv(c, st, i),
        0 <= i < c.n(),
        c.higher_at(i).len() > 0,
        cells_of(c.higher_at(i), st.reprs).len() != 1,
        merge_facts(c, st, i),
    ensures
        forall|j: int| 0 <= j < i + 1 ==> #[trigger] anc_ok(c, step_state(c, st, i), i + 1, j),
{
    let n = c.n();
    let hs = c.higher_at(i);
    let st2 = step_state(c, st, i);
    let cells = cells_of(hs, st.reprs);
    let mc = best_cell(c, cells);
    let sp = steepest_pair(c, hs).0;
    assert forall|j: int| 0 <= j < i + 1 implies #[trigger] anc_ok(c, st2, i + 1, j) by {
        let jj = if j == i {
            sp as int
        } else {
            j
        };
        assert(anc_ok(c, st, i, jj));
        assert(data_of(st2.data[j]).ancestor == data_of(st.data[jj]).ancestor) by {
            if j == i {
            } else if cells.contains(j as usize) && j != mc {
                assert(data_of(st2.data[j]).ancestor == data_of(st.data[j]).ancestor);
            } else {
                assert(st2.data[j] == st.data[j]);
            }
        }
        let q = choose|q: int|
            0 <= q < i && c.order[q] == data_of(st.data[jj]).ancestor && seed_at(c, q)
                && data_of(st.data[q]).ancestor == c.order[q];
        assert(data_of(st2.data[q]).ancestor == c.order[q]) by {
            if cells.contains(q as usize) && q != mc {
                assert(data_of(st2.data[q]).ancestor == data_of(st.data[q]).ancestor);
            } else {
                assert(st2.data[q] == st.data[q]);
            }
        }
        assert(0 <= q < i + 1 && c.order[q] == data_of(st2.data[j]).ancestor && seed_at(c, q)
            && data_of(st2.data[q]).ancestor == c.order[q]);
    }
}

/// The merge events after a merge step keep the invariants.
#[verifier::rlimit(100)]
proof fn lemma_merge_events_inv(c: BuildCtx, st: BuildState, i: int)
    requires
        c.wf(),
        st_inv(c, st, i),
        0 <= i < c.n(),
        c.higher_at(i).len() > 0,
        cells_of(c.higher_at(i), st.reprs).len() != 1,
        merge_facts(c, st, i),
    ensures
        forall|j: int|
            0 <= j < i + 1 ==> (data_of(
                #[trigger] step_state(c, st, i).data[j],
            ).merge_parent is Some <==> step_state(c, st, i).saddle[j] is Some),
        forall|j: int|
            0 <= j < i + 1 && (#[trigger] step_state(c, st, i).saddle[j]) is Some ==> merge_ok(
                c,
                step_state(c, st, i),
                i + 1,
                j,
            ),
{
    let n = c.n();
    let hs = c.higher_at(i);
    let st2 = step_state(c, st, i);
    let cells = cells_of(hs, st.reprs);
    let mc = best_cell(c, cells);
    assert forall|j: int| 0 <= j < i + 1 implies (data_of(
        #[trigger] st2.data[j],
    ).merge_parent is Some <==> st2.saddle[j] is Some) by {
        if j == i {
            assert(st.saddle[i] is None);
            if cells.contains(i as usize) {
                assert((i as usize as int) < i);
                assert(false);
            }
            assert(st2.saddle[j] == st.saddle[j]);
        } else if cells.contains(j as usize) && j != mc {
        } else {
            assert(st2.data[j] == st.data[j]);
            assert(st2.saddle[j] == st.saddle[j]);
        }
    }
    assert forall|j: int| 0 <= j < i + 1 && (#[trigger] st2.saddle[j]) is Some implies merge_ok(
        c,
        st2,
        i + 1,
        j,
    ) by {
        if cells.contains(j as usize) && j != mc {
            assert(st2.saddle[j] == Some(i as usize));
            assert(opt_pos(st2.saddle[j]) == i);
            assert(data_of(st2.data[j]).merge_parent == Some(c.order[mc as int]));
            assert(parent_of(st2.data[j]) == c.order[mc as int]);
            assert(data_of(st2.data[j]).lifetime == Lifetime::Finite(
                abs_gap(c.val_at(j), c.val_at(i)) as u64,
            ));
            let t = choose|t: int| 0 <= t < cells.len() && cells[t] == j as usize;
            assert(c.value_geq(c.order[mc as int], c.order[j]));
            assert(0 <= (mc as int) < i && c.order[mc as int] == parent_of(st2.data[j]) && seed_at(
                c,
                mc as int,
            ) && c.value_geq(c.order[mc as int], c.order[j]));
        } else {
            if j == i {
                assert(st2.saddle[i] == st.saddle[i]);
                assert(st.saddle[i] is None);
                assert(false);
            }
            assert(st2.saddle[j] == st.saddle[j]);
            assert(st2.data[j] == st.data[j]);
            assert(merge_ok(c, st, i, j));
            let s = opt_pos(st.saddle[j]);
            let m = choose|m: int|
                0 <= m < s && c.order[m] == parent_of(st.data[j]) && seed_at(c, m)
                    && c.value_geq(c.order[m], c.order[j]);
            assert(0 <= m < s && c.order[m] == parent_of(st2.data[j]) && seed_at(c, m)
                && c.value_geq(c.order[m], c.order[j]));
            assert(merge_ok(c, st2, i + 1, j));
        }
    }
}

/// The processed edges after a merge step join one basin.
#[verifier::rlimit(100)]
proof fn lemma_merge_edges_inv(c: BuildCtx, st: BuildState, i: int)
    requires
        c.wf(),
        st_inv(c, st, i),
        0 <= i < c.n(),
        c.higher_at(i).len() > 0,
        cells_of(c.higher_at(i), st.reprs).len() != 1,
        merge_facts(c, st, i),
    ensures
        forall|e: int|
            0 <= e < c.edges.len() && (c.pos[(#[trigger] c.edges[e]).a as int] as int) < i + 1 && (
            c.pos[c.edges[e].b as int] as int) < i + 1 ==> step_state(c, st, i).reprs[c.pos[c.edges[e].a as int] as int]
                == step_state(c, st, i).reprs[c.pos[c.edges[e].b as int] as int],
{
    let n = c.n();
    let hs = c.higher_at(i);
    let st2 = step_state(c, st, i);
    let cells = cells_of(hs, st.reprs);
    let mc = best_cell(c, cells);
    // edges
    assert forall|e: int|
        0 <= e < c.edges.len() && (c.pos[(#[trigger] c.edges[e]).a as int] as int) < i + 1
        && (c.pos[c.edges[e].b as int] as int) < i + 1 implies st2.reprs[c.pos[c.edges[e].a as int] as int]
        == st2.reprs[c.pos[c.edges[e].b as int] as int] by {
        let pa = c.pos[c.edges[e].a as int] as int;
        let pb = c.pos[c.edges[e].b as int] as int;
        if pa < i && pb < i {
            assert(st.reprs[pa] == st.reprs[pb]);
        } else if pa == i && pb == i {
        } else {
            lemma_edge_in_higher(c, i, e);
            let p = if pa == i {
                pb
            } else {
                pa
            };
            let entry = (
                if pa == i {
                    c.pos[c.edges[e].b as int]
                } else {
                    c.pos[c.edges[e].a as int]
                },
                c.edges[e].weight,
            );
            let q = choose|q: int| 0 <= q < hs.len() && hs[q] == entry;
            lemma_cells_contains(hs, st.reprs, q);
            assert(cells.contains(st.reprs[p]));
            assert(st2.reprs[p] == mc);
            assert(st.reprs[i] == i);
            assert(st2.reprs[i] == mc);
        }
    }
}

/// Processing a saddle that merges two or more basins preserves every
/// invariant.
#[verifier::rlimit(100)]
proof fn lemma_step_inv_merge(c: BuildCtx, st: BuildState, i: int)
    requires
        c.wf(),
        st_inv(c, st, i),
        0 <= i < c.n(),
        c.higher_at(i).len() > 0,
        cells_of(c.higher_at(i), st.reprs).len() != 1,
    ensures
        st_inv(c, step_state(c, st, i), i + 1),
{
    lemma_merge_facts(c, st, i);
    lemma_merge_reprs_inv(c, st, i);
    lemma_merge_data_inv(c, st, i);
    lemma_merge_anc_inv(c, st, i);
    lemma_merge_events_inv(c, st, i);
    lemma_merge_edges_inv(c, st, i);
    assert(st_inv(c, step_state(c, st, i), i + 1));
}


/// Processing one node preserves every invariant.
pub proof fn lemma_step_inv(c: BuildCtx, st: BuildState, i: int)
    requires
        c.wf(),
        st_inv(c, st, i),
        0 <= i < c.n(),
    ensures
        st_inv(c, step_state(c, st, i), i + 1),
{
    let hs = c.higher_at(i);
    if hs.len() == 0 {
        lemma_step_inv_seed(c, st, i);
    } else if cells_of(hs, st.reprs).len() == 1 {
        lemma_step_inv_single(c, st, i);
    } else {
        lemma_step_inv_merge(c, st, i);
    }
}

/// All invariants hold after any processed prefix.
pub proof fn lemma_run_inv(c: BuildCtx, k: int)
    requires
        c.wf(),
        0 <= k <= c.n(),
    ensures
        st_inv(c, run_to(c, k), k),
    decreases k,
{
    if k == 0 {
        assert(st_inv(c, init_state(c.n()), 0));
    } else {
        lemma_run_inv(c, k - 1);
        lemma_step_inv(c, run_to(c, k - 1), k - 1);
    }
}

} // verus!
