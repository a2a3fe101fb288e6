//! The stated laws of the library: what holds of every constructed complex.
use vstd::prelude::*;

use crate::complex::MorseComplex;
use crate::graph::{GraphEdge, ScalarGraph, adjacent};
use crate::invariants::{anc_ok, lemma_run_inv, merge_ok, parent_of, st_inv};
use crate::model::{
    BuildCtx, BuildState, abs_gap, collect_steps, data_of, opt_pos, run_to, seed_at, time_of,
};
use crate::order::{lemma_sort_steps_multiset, lemma_sort_steps_sorted};
use crate::points::{Lifetime, MorseData, MorseFiltrationStep};

verus! {

/// A walk through the graph: consecutive nodes share an edge.
pub open spec fn is_path(edges: Seq<GraphEdge>, n: int, p: Seq<usize>) -> bool {
    &&& p.len() >= 1
    &&& forall|t: int| 0 <= t < p.len() ==> ((#[trigger] p[t]) as int) < n
    &&& forall|t: int| 0 <= t < p.len() - 1 ==> adjacent(edges, #[trigger] p[t], p[t + 1])
}

/// Some walk joins `u` to `v`.
pub open spec fn pair_connected(edges: Seq<GraphEdge>, n: int, u: usize, v: usize) -> bool {
    exists|p: Seq<usize>| is_path(edges, n, p) && p.first() == u && p.last() == v
}

/// Every two nodes of the graph are joined by a walk.
pub open spec fn connected(edges: Seq<GraphEdge>, n: int) -> bool {
    forall|u: usize, v: usize|
        (u as int) < n && (v as int) < n ==> #[trigger] pair_connected(edges, n, u, v)
}

/// All nodes of one walk end up in one basin.
proof fn lemma_path_one_cell(c: BuildCtx, st: BuildState, p: Seq<usize>)
    requires
        c.wf(),
        st_inv(c, st, c.n()),
        is_path(c.edges, c.n(), p),
    ensures
        st.reprs[c.pos[p.first() as int] as int] == st.reprs[c.pos[p.last() as int] as int],
    decreases p.len(),
{
    if p.len() > 1 {
        assert(is_path(c.edges, c.n(), p.drop_last())) by {
            assert(forall|t: int|
                0 <= t < p.drop_last().len() ==> (#[trigger] p.drop_last()[t]) == p[t]);
        }
        lemma_path_one_cell(c, st, p.drop_last());
        let u = p[p.len() - 2];
        let v = p.last();
        assert(adjacent(c.edges, u, v)) by {
            assert(p[p.len() - 2] == p.drop_last().last());
        }
        let j = choose|j: int|
            0 <= j < c.edges.len() && ((c.edges[j].a == u && c.edges[j].b == v) || (c.edges[j].a
                == v && c.edges[j].b == u));
        assert(st.reprs[c.pos[c.edges[j].a as int] as int] == st.reprs[c.pos[c.edges[j].b as int] as int]);
        assert(p.drop_last().first() == p.first());
    }
}

/// For a connected, non-empty graph, exactly one node carries infinite
/// persistence, and it is a node whose scalar value is the most extreme for
/// the direction.
pub proof fn lemma_global_extremum(g: ScalarGraph, mc: MorseComplex)
    requires
        mc.built_from(&g),
        g.val_seq().len() > 0,
        connected(g.edge_seq(), g.val_seq().len() as int),
    ensures
        exists|x: int|
            0 <= x < g.val_seq().len() && #[trigger] mc.node_lifetime(x) == Lifetime::Infinite,
        forall|x: int, y: int|
            0 <= x < g.val_seq().len() && 0 <= y < g.val_seq().len() && #[trigger] mc.node_lifetime(
                x,
            ) == Lifetime::Infinite && #[trigger] mc.node_lifetime(y) == Lifetime::Infinite ==> x
                == y,
        forall|x: usize, v: usize|
            (x as int) < g.val_seq().len() && (v as int) < g.val_seq().len() && mc.node_lifetime(
                x as int,
            ) == Lifetime::Infinite ==> #[trigger] mc.ctx_with(&g).value_geq(x, v),
{
    let c = mc.ctx_with(&g);
    let n = c.n();
    lemma_run_inv(c, n);
    let st = run_to(c, n);
    let r = st.reprs[0] as int;
    assert forall|k: int| 0 <= k < n implies (#[trigger] st.reprs[k]) as int == r by {
        assert(pair_connected(c.edges, n, c.order[k], c.order[0]));
        let p = choose|p: Seq<usize>|
            is_path(c.edges, n, p) && p.first() == c.order[k] && p.last() == c.order[0];
        lemma_path_one_cell(c, st, p);
        assert(c.pos[c.order[k] as int] == k);
        assert(c.pos[c.order[0] as int] == 0);
    }
    assert(st.reprs[r] == st.reprs[0]);
    // the surviving representative's node carries the infinite persistence
    let w = c.order[r];
    assert(c.pos[w as int] == r);
    assert(mc.node_lifetime(w as int) == Lifetime::Infinite);
    assert forall|x: int, y: int|
        0 <= x < n && 0 <= y < n && #[trigger] mc.node_lifetime(x) == Lifetime::Infinite
            && #[trigger] mc.node_lifetime(y) == Lifetime::Infinite implies x == y by {
        let kx = c.pos[x] as int;
        let ky = c.pos[y] as int;
        assert(st.reprs[kx] == kx && st.reprs[ky] == ky);
        assert(kx == r && ky == r);
        assert(c.order[kx] == x as usize && c.order[ky] == y as usize);
    }
    assert forall|x: usize, v: usize|
        (x as int) < n && (v as int) < n && mc.node_lifetime(x as int)
            == Lifetime::Infinite implies #[trigger] mc.ctx_with(&g).value_geq(x, v) by {
        let kx = c.pos[x as int] as int;
        assert(st.reprs[kx] == kx && kx == r);
        let kv = c.pos[v as int] as int;
        assert(c.value_geq(c.order[st.reprs[kv] as int], c.order[kv]));
        assert(st.reprs[kv] as int == r);
        assert(c.order[kx] == x && c.order[kv] == v);
    }
}

/// A node with at least one already-processed neighbor — one neighbor, or
/// several that share a basin or span several — is absorbed with zero
/// persistence and never records a merge event of its own.
pub proof fn lemma_absorbed_zero_persistence(g: ScalarGraph, mc: MorseComplex, v: int)
    requires
        mc.built_from(&g),
        0 <= v < g.val_seq().len(),
        mc.ctx_with(&g).higher_at(mc.pos_seq()[v] as int).len() > 0,
    ensures
        mc.node_lifetime(v) == Lifetime::Finite(0),
        mc.node_merge_parent(v) is None,
{
    let c = mc.ctx_with(&g);
    lemma_run_inv(c, c.n());
    let j = c.pos[v] as int;
    assert(!seed_at(c, j));
}

/// A destroyed basin's recorded lifetime is the absolute gap between its
/// extremum's scalar value and the value of the saddle node that destroyed
/// it; its merge parent is an extremum seed at least as extreme as itself.
pub proof fn lemma_merge_lifetime_gap(g: ScalarGraph, mc: MorseComplex, v: int)
    requires
        mc.built_from(&g),
        0 <= v < g.val_seq().len(),
        mc.node_merge_parent(v) is Some,
    ensures
        exists|s: int|
            0 <= s < g.val_seq().len() && #[trigger] mc.node_lifetime(v) == Lifetime::Finite(
                abs_gap(
                    mc.ctx_with(&g).values[v],
                    mc.ctx_with(&g).values[s],
                ) as u64,
            ),
{
    let c = mc.ctx_with(&g);
    let n = c.n();
    lemma_run_inv(c, n);
    let st = run_to(c, n);
    let j = c.pos[v] as int;
    assert(st.saddle[j] is Some);
    assert(merge_ok(c, st, n, j));
    let sp = opt_pos(st.saddle[j]);
    let s = c.order[sp] as int;
    assert(c.order[j] == v as usize);
    assert(mc.node_lifetime(v) == Lifetime::Finite(abs_gap(c.values[v], c.values[s]) as u64));
}

/// Every element of the collected merge events comes from a destroyed
/// position's record.
proof fn lemma_collect_elems(order: Seq<usize>, data: Seq<Option<MorseData>>, k: int, t: int)
    requires
        0 <= t < collect_steps(order, data, k).len(),
    ensures
        exists|j: int|
            0 <= j < k && data_of(#[trigger] data[j]).merge_parent is Some && collect_steps(
                order,
                data,
                k,
            )[t] == (MorseFiltrationStep {
                time: time_of(data_of(data[j]).lifetime),
                destroyed_cell: order[j],
                owning_cell: parent_of(data[j]),
            }),
    decreases k,
{
    let pre = collect_steps(order, data, k - 1);
    if t < pre.len() {
        lemma_collect_elems(order, data, k - 1, t);
        let j = choose|j: int|
            0 <= j < k - 1 && data_of(#[trigger] data[j]).merge_parent is Some && pre[t] == (
            MorseFiltrationStep {
                time: time_of(data_of(data[j]).lifetime),
                destroyed_cell: order[j],
                owning_cell: parent_of(data[j]),
            });
        assert(collect_steps(order, data, k)[t] == pre[t]);
    } else {
        let j = k - 1;
        assert(data_of(data[j]).merge_parent is Some);
        assert(collect_steps(order, data, k)[t] == (MorseFiltrationStep {
            time: time_of(data_of(data[j]).lifetime),
            destroyed_cell: order[j],
            owning_cell: parent_of(data[j]),
        }));
    }
}

/// The filtration is sorted by time, earliest first, and each of its entries
/// names a destroyed node whose recorded merge parent is exactly the entry's
/// owning cell and whose recorded lifetime is exactly the entry's time.
pub proof fn lemma_filtration_consistent(g: ScalarGraph, mc: MorseComplex)
    requires
        mc.built_from(&g),
    ensures
        forall|a: int, b: int|
            0 <= a < b < mc.filt_seq().len() ==> (#[trigger] mc.filt_seq()[a]).time
                <= (#[trigger] mc.filt_seq()[b]).time,
        forall|t: int|
            0 <= t < mc.filt_seq().len() ==> {
                let e = #[trigger] mc.filt_seq()[t];
                &&& (e.destroyed_cell as int) < g.val_seq().len()
                &&& mc.node_merge_parent(e.destroyed_cell as int) == Some(e.owning_cell)
                &&& mc.node_lifetime(e.destroyed_cell as int) == Lifetime::Finite(e.time)
            },
{
    broadcast use vstd::seq_lib::group_to_multiset_ensures;

    let c = mc.ctx_with(&g);
    let n = c.n();
    lemma_run_inv(c, n);
    let st = run_to(c, n);
    let raw = collect_steps(c.order, st.data, n);
    lemma_sort_steps_sorted(raw);
    lemma_sort_steps_multiset(raw);
    assert forall|t: int| 0 <= t < mc.filt_seq().len() implies {
        let e = #[trigger] mc.filt_seq()[t];
        &&& (e.destroyed_cell as int) < g.val_seq().len()
        &&& mc.node_merge_parent(e.destroyed_cell as int) == Some(e.owning_cell)
        &&& mc.node_lifetime(e.destroyed_cell as int) == Lifetime::Finite(e.time)
    } by {
        let e = mc.filt_seq()[t];
        assert(mc.filt_seq().to_multiset().contains(e)) by {
            assert(mc.filt_seq().contains(e));
        }
        assert(raw.contains(e));
        let t2 = choose|t2: int| 0 <= t2 < raw.len() && raw[t2] == e;
        lemma_collect_elems(c.order, st.data, n, t2);
        let j = choose|j: int|
            0 <= j < n && data_of(#[trigger] st.data[j]).merge_parent is Some && raw[t2] == (
            MorseFiltrationStep {
                time: time_of(data_of(st.data[j]).lifetime),
                destroyed_cell: c.order[j],
                owning_cell: parent_of(st.data[j]),
            });
        assert(st.saddle[j] is Some);
        assert(merge_ok(c, st, n, j));
        assert(c.pos[c.order[j] as int] == j);
    }
}

/// The extremum owning any node's basin owns itself: ancestor chains end
/// after one step, at an extremum seed. If that extremum was never the
/// destroyed side of a merge, its persistence is infinite.
pub proof fn lemma_ancestor_owns_itself(g: ScalarGraph, mc: MorseComplex, v: int)
    requires
        mc.built_from(&g),
        0 <= v < g.val_seq().len(),
    ensures
        (mc.node_ancestor(v) as int) < g.val_seq().len(),
        mc.node_ancestor(mc.node_ancestor(v) as int) == mc.node_ancestor(v),
        mc.node_merge_parent(mc.node_ancestor(v) as int) is None ==> mc.node_lifetime(
            mc.node_ancestor(v) as int,
        ) == Lifetime::Infinite,
{
    let c = mc.ctx_with(&g);
    let n = c.n();
    lemma_run_inv(c, n);
    let st = run_to(c, n);
    let j = c.pos[v] as int;
    assert(anc_ok(c, st, n, j));
    let a = data_of(st.data[j]).ancestor;
    let q = choose|q: int|
        0 <= q < n && c.order[q] == a && seed_at(c, q) && data_of(st.data[q]).ancestor
            == c.order[q];
    assert(c.order[j] == v as usize);
    assert(mc.node_ancestor(v) == a);
    assert(c.pos[a as int] == q);
    assert(mc.node_ancestor(a as int) == a);
}

} // verus!
