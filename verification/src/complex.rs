//! Construction of a Morse complex over a scalar-labeled graph, and the pair
//! of complexes that makes a Morse-Smale complex.
use vstd::prelude::*;

use std::collections::HashMap;

use crate::MorseKind;
use crate::cells::PointedUnionFind;
use crate::error::MorseError;
use crate::graph::{ScalarGraph, nbrs_of};
use crate::invariants::{
    lemma_cells_distinct, lemma_higher_elems, lemma_merge_facts, lemma_run_inv, st_inv,
};
use crate::model::{
    BuildCtx, abs_gap, abs_of, best_cell, cells_of, collect_steps, data_of, destroy_data,
    grade_gt, higher_of, id_seq, merge_reprs, node_before, run_to, sort_nodes, sort_steps,
    steepest_pair, step_anc, step_data_pre, step_lifetime, step_reprs, step_state, time_of,
    union_reprs, unwrap_vals,
};
use crate::order::{
    lemma_sort_nodes_multiset, lemma_sort_nodes_sorted, node_before_exec, nodes_sorted,
    sort_node_ids, sort_steps_exec,
};
use crate::points::{Lifetime, MorseData, MorseFiltrationStep};

verus! {

/// The absolute value of a scalar reading.
fn abs_exec(v: i64) -> (r: u64)
    ensures
        r as int == abs_of(v),
{
    if v >= 0 {
        v as u64
    } else {
        (-(v as i128)) as u64
    }
}

/// The absolute difference of two scalar readings.
fn abs_gap_exec(a: i64, b: i64) -> (r: u64)
    ensures
        r as int == abs_gap(a, b),
{
    if a >= b {
        ((a as i128) - (b as i128)) as u64
    } else {
        ((b as i128) - (a as i128)) as u64
    }
}

/// Whether the grade `|vn| / wn` is strictly steeper than `|vc| / wc`.
fn grade_gt_exec(vn: i64, wn: u64, vc: i64, wc: u64) -> (r: bool)
    ensures
        r == grade_gt(vn, wn, vc, wc),
{
    let an = abs_exec(vn);
    let ac = abs_exec(vc);
    if wn == 0 && an == 0 {
        false
    } else if wc == 0 && ac == 0 {
        false
    } else if wc == 0 {
        false
    } else if wn == 0 {
        true
    } else {
        proof {
            assert((an as int) * (wc as int) <= (u64::MAX as int) * (u64::MAX as int) && (
            ac as int) * (wn as int) <= (u64::MAX as int) * (u64::MAX as int)) by (nonlinear_arith)
                requires
                    0 <= an as int <= u64::MAX as int,
                    0 <= wc as int <= u64::MAX as int,
                    0 <= ac as int <= u64::MAX as int,
                    0 <= wn as int <= u64::MAX as int,
            ;
        }
        (an as u128) * (wc as u128) > (ac as u128) * (wn as u128)
    }
}

/// Whether a vector of positions holds `x`.
fn vec_contains_usize(v: &Vec<usize>, x: usize) -> (r: bool)
    ensures
        r == v@.contains(x),
{
    let mut q: usize = 0;
    while q < v.len()
        invariant
            q <= v@.len(),
            forall|t: int| 0 <= t < q ==> v@[t] != x,
        decreases v@.len() - q,
    {
        if v[q] == x {
            return true;
        }
        q = q + 1;
    }
    false
}

/// The already-processed neighbors of `node` (the node at position `i`), as
/// (position, weight) pairs in edge-list order.
fn higher_neighbors(g: &ScalarGraph, pos: &Vec<usize>, node: usize, i: usize) -> (hs: Vec<
    (usize, u64),
>)
    requires
        forall|j: int|
            0 <= j < g.edge_seq().len() ==> (#[trigger] g.edge_seq()[j]).a < pos@.len()
                && g.edge_seq()[j].b < pos@.len(),
    ensures
        hs@ == higher_of(nbrs_of(g.edge_seq(), node), pos@, i as int),
{
    let mut hs: Vec<(usize, u64)> = Vec::new();
    let m = g.edge_count();
    let mut j: usize = 0;
    proof {
        assert(g.edge_seq().subrange(0, 0) =~= Seq::empty());
        assert(nbrs_of(g.edge_seq().subrange(0, 0), node) =~= Seq::empty());
    }
    while j < m
        invariant
            j <= g.edge_seq().len(),
            m == g.edge_seq().len(),
            forall|t: int|
                0 <= t < g.edge_seq().len() ==> (#[trigger] g.edge_seq()[t]).a < pos@.len()
                    && g.edge_seq()[t].b < pos@.len(),
            hs@ == higher_of(nbrs_of(g.edge_seq().subrange(0, j as int), node), pos@, i as int),
        decreases m - j,
    {
        let e = g.edge_at(j);
        let ghost epre = g.edge_seq().subrange(0, j as int);
        let ghost enext = g.edge_seq().subrange(0, j as int + 1);
        proof {
            assert(enext.drop_last() =~= epre);
            assert(enext.last() == e);
            assert(nbrs_of(enext, node) == nbrs_of(epre, node) + crate::graph::edge_touch(
                e,
                node,
            ));
        }
        if e.a == node || e.b == node {
            let other = if e.a == node {
                e.b
            } else {
                e.a
            };
            let po = pos[other];
            let ghost nb = nbrs_of(epre, node);
            proof {
                assert(crate::graph::edge_touch(e, node) =~= seq![(other, e.weight)]);
                assert(nbrs_of(enext, node) =~= nb.push((other, e.weight)));
                assert(nbrs_of(enext, node).drop_last() =~= nb);
                assert(nbrs_of(enext, node).last() == (other, e.weight));
            }
            if po < i {
                hs.push((po, e.weight));
                proof {
                    assert(higher_of(nbrs_of(enext, node), pos@, i as int) =~= higher_of(
                        nb,
                        pos@,
                        i as int,
                    ).push((po, e.weight)));
                }
            } else {
                proof {
                    assert(higher_of(nbrs_of(enext, node), pos@, i as int) == higher_of(
                        nb,
                        pos@,
                        i as int,
                    ));
                }
            }
        } else {
            proof {
                assert(crate::graph::edge_touch(e, node) =~= Seq::<(usize, u64)>::empty());
                assert(nbrs_of(enext, node) =~= nbrs_of(epre, node));
            }
        }
        j = j + 1;
    }
    proof {
        assert(g.edge_seq().subrange(0, m as int) =~= g.edge_seq());
    }
    hs
}

/// The Morse complex of a graph for one direction.
///
/// A Morse complex partitions the graph's nodes into basins owned by the
/// extrema of the scalar field: maxima for a `Descending` complex, minima for
/// an `Ascending` one. Construction also computes each extremum's
/// persistence and the filtration: the time-ordered sequence of basin-merge
/// events that progressively simplifies the complex.
#[derive(Debug)]
pub struct MorseComplex {
    order: Vec<usize>,
    pos: Vec<usize>,
    data: Vec<Option<MorseData>>,
    cells: PointedUnionFind,
    /// The time-ordered basin-merge events.
    pub filtration: Vec<MorseFiltrationStep>,
    kind: MorseKind,
}

impl MorseComplex {
    /// The node ids in processing order.
    pub closed spec fn order_seq(&self) -> Seq<usize> {
        self.order@
    }

    /// The processing position of each node id.
    pub closed spec fn pos_seq(&self) -> Seq<usize> {
        self.pos@
    }

    /// The merge record of each position.
    pub closed spec fn data_seq(&self) -> Seq<Option<MorseData>> {
        self.data@
    }

    /// The basin representative of each position.
    pub closed spec fn cells_seq(&self) -> Seq<usize> {
        self.cells@
    }

    /// The direction of the complex.
    pub closed spec fn kind_of(&self) -> MorseKind {
        self.kind
    }

    /// The filtration as a sequence.
    pub closed spec fn filt_seq(&self) -> Seq<MorseFiltrationStep> {
        self.filtration@
    }

    /// The persistence recorded on node `v`.
    pub open spec fn node_lifetime(&self, v: int) -> Lifetime {
        data_of(self.data_seq()[self.pos_seq()[v] as int]).lifetime
    }

    /// The extremum owning node `v`'s basin.
    pub open spec fn node_ancestor(&self, v: int) -> usize {
        data_of(self.data_seq()[self.pos_seq()[v] as int]).ancestor
    }

    /// The extremum that absorbed node `v`'s basin, if `v` was destroyed.
    pub open spec fn node_merge_parent(&self, v: int) -> Option<usize> {
        data_of(self.data_seq()[self.pos_seq()[v] as int]).merge_parent
    }

    /// The construction context this complex pairs with a graph.
    pub open spec fn ctx_with(&self, g: &ScalarGraph) -> BuildCtx {
        BuildCtx {
            values: unwrap_vals(g.val_seq()),
            edges: g.edge_seq(),
            order: self.order_seq(),
            pos: self.pos_seq(),
            kind: self.kind_of(),
        }
    }

    /// The complex is exactly what constructing over `g` yields: the order is
    /// the sorted permutation of the nodes, the records and the partition are
    /// the final construction state, and the filtration is the time-sorted
    /// sequence of recorded merge events.
    pub open spec fn built_from(&self, g: &ScalarGraph) -> bool {
        let c = self.ctx_with(g);
        &&& c.wf()
        &&& self.order_seq() == sort_nodes(c.values, c.kind, id_seq(c.n()))
        &&& self.data_seq() == run_to(c, c.n()).data
        &&& self.cells_seq() == run_to(c, c.n()).reprs
        &&& self.filt_seq() == sort_steps(collect_steps(c.order, run_to(c, c.n()).data, c.n()))
    }

    /// The shape a constructed complex always has: the order is a permutation
    /// with `pos` as its inverse, and every position carries a record.
    pub closed spec fn queryable(&self) -> bool {
        let n = self.order@.len() as int;
        &&& self.pos@.len() == n
        &&& self.data@.len() == n
        &&& forall|k: int| 0 <= k < n ==> (#[trigger] self.order@[k]) < n
        &&& forall|v: int|
            0 <= v < n ==> (#[trigger] self.pos@[v]) < n && self.order@[self.pos@[v] as int] == v
        &&& forall|k: int| 0 <= k < n ==> (#[trigger] self.pos@[self.order@[k] as int]) == k
        &&& forall|k: int| 0 <= k < n ==> (#[trigger] self.data@[k]) is Some
    }

    /// The number of nodes of the complex.
    pub fn node_count(&self) -> (n: usize)
        ensures
            n == self.order_seq().len(),
    {
        self.order.len()
    }

    /// The state of a partially built complex: the first `i` positions have
    /// been processed.
    spec fn mid_state(&self, c: BuildCtx, i: int) -> bool {
        &&& self.order@ == c.order
        &&& self.pos@ == c.pos
        &&& self.kind == c.kind
        &&& self.cells.wf()
        &&& self.cells@ == run_to(c, i).reprs
        &&& self.data@ == run_to(c, i).data
    }

    /// Validates the scalar readings and produces them with the processing
    /// order: nodes sorted by value, largest first for `Descending` and
    /// smallest first for `Ascending`, ties broken by node id.
    fn get_ordered_points(kind: MorseKind, graph: &ScalarGraph) -> (r: Result<
        (Vec<i64>, Vec<usize>),
        MorseError,
    >)
        ensures
            match r {
                Ok(p) => {
                    &&& graph.values_ok()
                    &&& p.0@ == unwrap_vals(graph.val_seq())
                    &&& p.1@ == sort_nodes(p.0@, kind, id_seq(graph.val_seq().len() as int))
                },
                Err(e) => {
                    &&& !graph.values_ok()
                    &&& match e {
                        MorseError::NanValue { node } => {
                            &&& (node as int) < graph.val_seq().len()
                            &&& graph.val_seq()[node as int] is None
                            &&& forall|j: int| 0 <= j < node ==> graph.val_seq()[j] is Some
                        },
                        _ => false,
                    }
                },
            },
    {
        let n = graph.node_count();
        let mut vals: Vec<i64> = Vec::new();
        let mut v: usize = 0;
        while v < n
            invariant
                v <= n,
                n == graph.val_seq().len(),
                vals@.len() == v,
                forall|j: int| 0 <= j < v ==> graph.val_seq()[j] is Some,
                forall|j: int| 0 <= j < v ==> vals@[j] == unwrap_vals(graph.val_seq())[j],
            decreases n - v,
        {
            match graph.value_of(v) {
                Some(x) => {
                    vals.push(x);
                },
                None => {
                    return Err(MorseError::NanValue { node: v });
                },
            }
            v = v + 1;
        }
        proof {
            assert(vals@ =~= unwrap_vals(graph.val_seq()));
        }
        let mut ids: Vec<usize> = Vec::new();
        let mut k: usize = 0;
        while k < n
            invariant
                k <= n,
                ids@.len() == k,
                forall|j: int| 0 <= j < k ==> ids@[j] == j,
            decreases n - k,
        {
            ids.push(k);
            k = k + 1;
        }
        proof {
            assert(ids@ =~= id_seq(n as int));
        }
        let order = sort_node_ids(&vals, kind, &ids);
        Ok((vals, order))
    }

    /// The distinct basins reached from the processed neighbors, in
    /// first-occurrence order.
    fn connected_cells(&self, hs: &Vec<(usize, u64)>) -> (cv: Vec<usize>)
        requires
            self.cells.wf(),
            forall|q: int| 0 <= q < hs@.len() ==> ((#[trigger] hs@[q]).0 as int) < self.cells@.len(),
        ensures
            cv@ == cells_of(hs@, self.cells@),
    {
        let mut cv: Vec<usize> = Vec::new();
        let mut q: usize = 0;
        proof {
            assert(hs@.subrange(0, 0) =~= Seq::empty());
            assert(cells_of(hs@.subrange(0, 0), self.cells@) =~= Seq::empty());
        }
        while q < hs.len()
            invariant
                q <= hs@.len(),
                self.cells.wf(),
                forall|t: int|
                    0 <= t < hs@.len() ==> ((#[trigger] hs@[t]).0 as int) < self.cells@.len(),
                cv@ == cells_of(hs@.subrange(0, q as int), self.cells@),
            decreases hs@.len() - q,
        {
            let p = hs[q].0;
            let r = self.cells.find(p);
            proof {
                assert(hs@.subrange(0, q as int + 1).drop_last() =~= hs@.subrange(0, q as int));
                assert(hs@.subrange(0, q as int + 1).last() == hs@[q as int]);
            }
            if !vec_contains_usize(&cv, r) {
                cv.push(r);
            }
            q = q + 1;
        }
        proof {
            assert(hs@.subrange(0, hs@.len() as int) =~= hs@);
        }
        cv
    }

    /// The surviving basin: among the given cells, the one whose extremum
    /// value is most extreme for the direction, the first such in cell order.
    /// Fails with `NoMaximum` if and only if there is no cell to choose from.
    fn find_max_cell(
        &self,
        vals: &Vec<i64>,
        joining: usize,
        cellsv: &Vec<usize>,
        Ghost(c): Ghost<BuildCtx>,
    ) -> (r: Result<usize, MorseError>)
        requires
            c.values == vals@,
            c.order == self.order@,
            c.kind == self.kind,
            c.wf(),
            (joining as int) < c.n(),
            forall|t: int| 0 <= t < cellsv@.len() ==> ((#[trigger] cellsv@[t]) as int) < c.n(),
        ensures
            cellsv@.len() == 0 ==> r == Err::<usize, MorseError>(
                MorseError::NoMaximum { node: self.order_seq()[joining as int] },
            ),
            cellsv@.len() > 0 ==> r == Ok::<usize, MorseError>(best_cell(c, cellsv@)),
    {
        if cellsv.len() == 0 {
            return Err(MorseError::NoMaximum { node: self.order[joining] });
        }
        let mut cur: usize = cellsv[0];
        let mut q: usize = 1;
        proof {
            assert(cellsv@.subrange(0, 1) =~= seq![cellsv@[0]]);
            assert(best_cell(c, cellsv@.subrange(0, 1)) == cellsv@[0]);
        }
        while q < cellsv.len()
            invariant
                1 <= q <= cellsv@.len(),
                c.values == vals@,
                c.order == self.order@,
                c.kind == self.kind,
                c.wf(),
                forall|t: int| 0 <= t < cellsv@.len() ==> ((#[trigger] cellsv@[t]) as int) < c.n(),
                cur == best_cell(c, cellsv@.subrange(0, q as int)),
                (cur as int) < c.n(),
            decreases cellsv@.len() - q,
        {
            let cand = cellsv[q];
            let vc = vals[self.order[cand]];
            let vb = vals[self.order[cur]];
            let better = match self.kind {
                MorseKind::Descending => vc > vb,
                MorseKind::Ascending => vc < vb,
            };
            proof {
                assert(cellsv@.subrange(0, q as int + 1).drop_last() =~= cellsv@.subrange(
                    0,
                    q as int,
                ));
                assert(cellsv@.subrange(0, q as int + 1).last() == cellsv@[q as int]);
            }
            if better {
                cur = cand;
            }
            q = q + 1;
        }
        proof {
            assert(cellsv@.subrange(0, cellsv@.len() as int) =~= cellsv@);
        }
        Ok(cur)
    }

    /// The steepest processed neighbor: the one maximizing the absolute
    /// ratio of its value to the connecting edge's weight, the first such in
    /// neighbor order. Fails with `MissingNeighbors` if and only if there is
    /// no neighbor.
    fn find_steepest_neighbor(
        &self,
        vals: &Vec<i64>,
        joining: usize,
        hs: &Vec<(usize, u64)>,
        Ghost(c): Ghost<BuildCtx>,
    ) -> (r: Result<usize, MorseError>)
        requires
            c.values == vals@,
            c.order == self.order@,
            c.kind == self.kind,
            c.wf(),
            (joining as int) < c.n(),
            forall|t: int| 0 <= t < hs@.len() ==> ((#[trigger] hs@[t]).0 as int) < c.n(),
        ensures
            hs@.len() == 0 ==> r == Err::<usize, MorseError>(
                MorseError::MissingNeighbors { node: self.order_seq()[joining as int] },
            ),
            hs@.len() > 0 ==> r == Ok::<usize, MorseError>(steepest_pair(c, hs@).0),
    {
        if hs.len() == 0 {
            return Err(MorseError::MissingNeighbors { node: self.order[joining] });
        }
        let mut cur: (usize, u64) = hs[0];
        let mut q: usize = 1;
        proof {
            assert(hs@.subrange(0, 1) =~= seq![hs@[0]]);
            assert(steepest_pair(c, hs@.subrange(0, 1)) == hs@[0]);
        }
        while q < hs.len()
            invariant
                1 <= q <= hs@.len(),
                c.values == vals@,
                c.order == self.order@,
                c.kind == self.kind,
                c.wf(),
                forall|t: int| 0 <= t < hs@.len() ==> ((#[trigger] hs@[t]).0 as int) < c.n(),
                cur == steepest_pair(c, hs@.subrange(0, q as int)),
                (cur.0 as int) < c.n(),
            decreases hs@.len() - q,
        {
            let cand = hs[q];
            let vc = vals[self.order[cand.0]];
            let vb = vals[self.order[cur.0]];
            proof {
                assert(hs@.subrange(0, q as int + 1).drop_last() =~= hs@.subrange(0, q as int));
                assert(hs@.subrange(0, q as int + 1).last() == hs@[q as int]);
            }
            if grade_gt_exec(vc, cand.1, vb, cur.1) {
                cur = cand;
            }
            q = q + 1;
        }
        proof {
            assert(hs@.subrange(0, hs@.len() as int) =~= hs@);
        }
        Ok(cur.0)
    }

    /// Merges the joining node and every reached basin into the surviving
    /// basin, recording a merge event for each destroyed basin's extremum.
    fn merge_cells(
        &mut self,
        vals: &Vec<i64>,
        i: usize,
        owning: usize,
        cellsv: &Vec<usize>,
        Ghost(c): Ghost<BuildCtx>,
    )
        requires
            c.wf(),
            (i as int) < c.n(),
            vals@ == c.values,
            old(self).mid_state(c, i as int),
            cellsv@ == cells_of(c.higher_at(i as int), run_to(c, i as int).reprs),
            c.higher_at(i as int).len() > 0,
            cellsv@.len() >= 2,
            owning == best_cell(c, cellsv@),
        ensures
            final(self).order@ == old(self).order@,
            final(self).pos@ == old(self).pos@,
            final(self).kind == old(self).kind,
            final(self).filtration@ == old(self).filtration@,
            final(self).cells.wf(),
            final(self).cells@ == merge_reprs(run_to(c, i as int).reprs, cellsv@, owning, i),
            final(self).data@ == destroy_data(c, run_to(c, i as int).data, cellsv@, owning, i),
            final(self).data@.len() == old(self).data@.len(),
    {
        let ghost st = run_to(c, i as int);
        let ghost hs = c.higher_at(i as int);
        proof {
            lemma_run_inv(c, i as int);
            lemma_merge_facts(c, st, i as int);
            lemma_cells_distinct(hs, st.reprs);
        }
        let joining_value = vals[self.order[i]];
        let merge_parent = self.order[owning];
        self.cells.union(owning, i);
        proof {
            assert(self.cells@ =~= union_reprs(st.reprs, owning as int, i as int));
            assert(cellsv@.subrange(0, 0) =~= Seq::empty());
            assert(merge_reprs(st.reprs, cellsv@.subrange(0, 0), owning, i) == union_reprs(
                st.reprs,
                owning as int,
                i as int,
            ));
            assert(destroy_data(c, st.data, cellsv@.subrange(0, 0), owning, i) == st.data);
        }
        let mut q: usize = 0;
        while q < cellsv.len()
            invariant
                q <= cellsv@.len(),
                c.wf(),
                (i as int) < c.n(),
                vals@ == c.values,
                st == run_to(c, i as int),
                st_inv(c, st, i as int),
                crate::invariants::merge_facts(c, st, i as int),
                hs == c.higher_at(i as int),
                cellsv@ == cells_of(hs, st.reprs),
                forall|t1: int, t2: int|
                    0 <= t1 < t2 < cellsv@.len() ==> #[trigger] cellsv@[t1] != #[trigger] cellsv@[t2],
                cellsv@.len() >= 2,
                owning == best_cell(c, cellsv@),
                joining_value == c.val_at(i as int),
                merge_parent == c.order[owning as int],
                self.order@ == c.order,
                self.pos@ == c.pos,
                self.kind == c.kind,
                self.filtration@ == old(self).filtration@,
                self.cells.wf(),
                self.cells@ == merge_reprs(st.reprs, cellsv@.subrange(0, q as int), owning, i),
                self.data@ == destroy_data(c, st.data, cellsv@.subrange(0, q as int), owning, i),
            decreases cellsv@.len() - q,
        {
            let cell = cellsv[q];
            let ghost pre_cells = cellsv@.subrange(0, q as int);
            proof {
                assert(cellsv@.subrange(0, q as int + 1).drop_last() =~= pre_cells);
                assert(cellsv@.subrange(0, q as int + 1).last() == cellsv@[q as int]);
                assert(forall|t: int|
                    0 <= t < pre_cells.len() ==> #[trigger] pre_cells[t] == cellsv@[t]);
                crate::invariants::lemma_destroy_data(c, st.data, pre_cells, owning, i);
                assert(!pre_cells.contains(cell)) by {
                    if pre_cells.contains(cell) {
                        let t = choose|t: int|
                            0 <= t < pre_cells.len() && pre_cells[t] == cell;
                        assert(cellsv@[t] == cellsv@[q as int]);
                        assert(false);
                    }
                }
                crate::invariants::lemma_merge_reprs(st.reprs, pre_cells, owning, i);
            }
            if cell != owning {
                proof {
                    assert(cellsv@.contains(cell)) by {
                        assert(cellsv@[q as int] == cell);
                    }
                    assert(self.data@[cell as int] == st.data[cell as int]);
                    assert(st.data[cell as int] is Some);
                }
                let ancestor = self.data[cell].unwrap().ancestor;
                let cell_value = vals[self.order[cell]];
                let lifetime = abs_gap_exec(cell_value, joining_value);
                self.data[cell] = Some(
                    MorseData {
                        lifetime: Lifetime::Finite(lifetime),
                        merge_parent: Some(merge_parent),
                        ancestor,
                    },
                );
                let ghost mid_reprs = self.cells@;
                proof {
                    assert(mid_reprs[owning as int] == owning);
                    assert(mid_reprs[cell as int] == cell);
                }
                self.cells.union(owning, cell);
                proof {
                    assert(self.cells@ =~= union_reprs(mid_reprs, owning as int, cell as int));
                    assert(self.cells@ == merge_reprs(
                        st.reprs,
                        cellsv@.subrange(0, q as int + 1),
                        owning,
                        i,
                    ));
                    assert(self.data@ =~= destroy_data(
                        c,
                        st.data,
                        cellsv@.subrange(0, q as int + 1),
                        owning,
                        i,
                    ));
                }
            } else {
                proof {
                    assert(self.cells@ == merge_reprs(
                        st.reprs,
                        cellsv@.subrange(0, q as int + 1),
                        owning,
                        i,
                    ));
                    assert(self.data@ == destroy_data(
                        c,
                        st.data,
                        cellsv@.subrange(0, q as int + 1),
                        owning,
                        i,
                    ));
                }
            }
            q = q + 1;
        }
        proof {
            assert(cellsv@.subrange(0, cellsv@.len() as int) =~= cellsv@);
            crate::invariants::lemma_destroy_data(c, st.data, cellsv@, owning, i);
        }
    }

    /// Absorbs the node at position `i` into the complex: merges it into its
    /// neighbors' basins as the model prescribes and returns the ancestor to
    /// record on it.
    fn add_point_to_complex(
        &mut self,
        vals: &Vec<i64>,
        i: usize,
        hs: &Vec<(usize, u64)>,
        Ghost(c): Ghost<BuildCtx>,
    ) -> (anc: usize)
        requires
            c.wf(),
            (i as int) < c.n(),
            vals@ == c.values,
            old(self).mid_state(c, i as int),
            hs@ == c.higher_at(i as int),
        ensures
            final(self).order@ == old(self).order@,
            final(self).pos@ == old(self).pos@,
            final(self).kind == old(self).kind,
            final(self).filtration@ == old(self).filtration@,
            final(self).cells.wf(),
            final(self).cells@ == step_reprs(c, run_to(c, i as int), i as int),
            final(self).data@ == step_data_pre(c, run_to(c, i as int), i as int),
            final(self).data@.len() == old(self).data@.len(),
            anc == step_anc(c, run_to(c, i as int), i as int),
    {
        let ghost st = run_to(c, i as int);
        proof {
            lemma_run_inv(c, i as int);
            lemma_higher_elems(nbrs_of(c.edges, c.order[i as int]), c.pos, i as int);
            assert(forall|q: int| 0 <= q < hs@.len() ==> ((#[trigger] hs@[q]).0 as int) < i);
        }
        if hs.len() == 0 {
            return self.order[i];
        }
        let cellsv = self.connected_cells(hs);
        if cellsv.len() == 1 {
            let nb = hs[0].0;
            proof {
                assert(st.reprs[nb as int] < i);
            }
            self.cells.union(nb, i);
            proof {
                assert(self.cells@ =~= union_reprs(st.reprs, nb as int, i as int));
                assert(st.data[nb as int] is Some);
            }
            let anc = self.data[nb].unwrap().ancestor;
            return anc;
        }
        // a saddle: two or more distinct basins meet here
        proof {
            crate::invariants::lemma_cells_elems(hs@, st.reprs);
            assert forall|t: int| 0 <= t < cellsv@.len() implies ((#[trigger] cellsv@[t]) as int)
                < c.n() by {
                let q = choose|q: int|
                    0 <= q < hs@.len() && #[trigger] cellsv@[t] == st.reprs[hs@[q].0 as int];
                assert((hs@[q].0 as int) < i);
                assert(st.reprs[hs@[q].0 as int] < i);
            }
        }
        let owning = match self.find_max_cell(vals, i, &cellsv, Ghost(c)) {
            Ok(v) => v,
            Err(_) => {
                // cells are never empty here
                proof {
                    assert(false);
                }
                0
            },
        };
        let steepest = match self.find_steepest_neighbor(vals, i, hs, Ghost(c)) {
            Ok(v) => v,
            Err(_) => {
                // neighbors are never empty here
                proof {
                    assert(false);
                }
                0
            },
        };
        self.merge_cells(vals, i, owning, &cellsv, Ghost(c));
        proof {
            crate::invariants::lemma_merge_facts(c, st, i as int);
            crate::invariants::lemma_destroy_data(c, st.data, cellsv@, owning, i);
            assert((steepest as int) < i);
            assert(self.data@[steepest as int] is Some) by {
                if cellsv@.contains(steepest) && (steepest as int) != owning {
                } else {
                    assert(self.data@[steepest as int] == st.data[steepest as int]);
                }
            }
            assert(data_of(self.data@[steepest as int]).ancestor == data_of(
                st.data[steepest as int],
            ).ancestor) by {
                if cellsv@.contains(steepest) && (steepest as int) != owning {
                } else {
                    assert(self.data@[steepest as int] == st.data[steepest as int]);
                }
            }
        }
        let anc = self.data[steepest].unwrap().ancestor;
        anc
    }

    /// Walks the nodes in processing order, building the partition and the
    /// per-node records.
    fn construct_complex(&mut self, vals: &Vec<i64>, graph: &ScalarGraph, Ghost(c): Ghost<BuildCtx>)
        requires
            c.wf(),
            c.values == vals@,
            c.edges == graph.edge_seq(),
            old(self).mid_state(c, 0),
        ensures
            final(self).order@ == old(self).order@,
            final(self).pos@ == old(self).pos@,
            final(self).kind == old(self).kind,
            final(self).filtration@ == old(self).filtration@,
            final(self).mid_state(c, c.n()),
    {
        let n = self.order.len();
        let mut i: usize = 0;
        while i < n
            invariant
                i <= n,
                n == c.n(),
                c.wf(),
                c.values == vals@,
                c.edges == graph.edge_seq(),
                self.mid_state(c, i as int),
                self.filtration@ == old(self).filtration@,
            decreases n - i,
        {
            proof {
                lemma_run_inv(c, i as int);
            }
            let node = self.order[i];
            let hs = higher_neighbors(graph, &self.pos, node, i);
            proof {
                assert(hs@ == c.higher_at(i as int));
            }
            let anc = self.add_point_to_complex(vals, i, &hs, Ghost(c));
            let lifetime = if hs.len() == 0 {
                Lifetime::Infinite
            } else {
                Lifetime::Finite(0)
            };
            proof {
                assert(lifetime == step_lifetime(c, i as int));
            }
            self.data[i] = Some(MorseData { lifetime, merge_parent: None, ancestor: anc });
            proof {
                let st = run_to(c, i as int);
                assert(self.data@ =~= step_state(c, st, i as int).data);
                assert(run_to(c, i as int + 1) == step_state(c, st, i as int));
            }
            i = i + 1;
        }
    }

    /// Collects every recorded merge event and sorts the events by time,
    /// earliest first, keeping position order among equal times.
    fn compute_filtration(&self) -> (r: Vec<MorseFiltrationStep>)
        requires
            self.data_seq().len() == self.order_seq().len(),
        ensures
            r@ == sort_steps(
                collect_steps(self.order_seq(), self.data_seq(), self.order_seq().len() as int),
            ),
    {
        let mut raw: Vec<MorseFiltrationStep> = Vec::new();
        let n = self.order.len();
        let mut k: usize = 0;
        while k < n
            invariant
                k <= n,
                n == self.order_seq().len(),
                self.data_seq().len() == n,
                raw@ == collect_steps(self.order_seq(), self.data_seq(), k as int),
            decreases n - k,
        {
            match self.data[k] {
                Some(d) => match d.merge_parent {
                    Some(p) => {
                        let t = match d.lifetime {
                            Lifetime::Finite(t) => t,
                            Lifetime::Infinite => 0,
                        };
                        proof {
                            assert(t == time_of(data_of(self.data_seq()[k as int]).lifetime));
                        }
                        let step = MorseFiltrationStep {
                            time: t,
                            destroyed_cell: self.order[k],
                            owning_cell: p,
                        };
                        raw.push(step);
                        proof {
                            assert(collect_steps(self.order_seq(), self.data_seq(), k as int + 1)
                                =~= collect_steps(self.order_seq(), self.data_seq(), k as int).push(
                                step,
                            ));
                        }
                    },
                    None => {},
                },
                None => {},
            }
            k = k + 1;
        }
        sort_steps_exec(&raw)
    }

    /// Builds the Morse complex of `graph` for the given direction.
    ///
    /// Succeeds exactly when every node carries a usable reading and every
    /// edge names nodes of the graph. A `None` reading at the smallest node
    /// id is reported as `NanValue`; otherwise the first dangling edge
    /// endpoint, in edge order, is reported as `MissingNode`. No other error
    /// is possible.
    pub fn from_graph(kind: MorseKind, graph: &ScalarGraph) -> (r: Result<
        MorseComplex,
        MorseError,
    >)
        ensures
            r is Ok <==> graph.values_ok() && graph.edges_ok(),
            match r {
                Ok(cpx) => {
                    &&& cpx.built_from(graph)
                    &&& cpx.queryable()
                    &&& cpx.kind_of() == kind
                    &&& cpx.order_seq().len() == graph.val_seq().len()
                },
                Err(e) => match e {
                    MorseError::NanValue { node } => {
                        &&& (node as int) < graph.val_seq().len()
                        &&& graph.val_seq()[node as int] is None
                        &&& forall|j: int| 0 <= j < node ==> graph.val_seq()[j] is Some
                    },
                    MorseError::MissingNode { node } => {
                        &&& graph.values_ok()
                        &&& exists|j: int|
                            0 <= j < graph.edge_seq().len() && !graph.edge_ok(j) && (forall|
                                j2: int,
                            |
                                0 <= j2 < j ==> graph.edge_ok(j2)) && node == (
                            if graph.edge_seq()[j].a >= graph.val_seq().len() {
                                (#[trigger] graph.edge_seq()[j]).a
                            } else {
                                graph.edge_seq()[j].b
                            })
                    },
                    _ => false,
                },
            },
    {
        let n = graph.node_count();
        let (vals, order) = match Self::get_ordered_points(kind, graph) {
            Ok(p) => p,
            Err(e) => {
                return Err(e);
            },
        };
        let m = graph.edge_count();
        let mut j: usize = 0;
        while j < m
            invariant
                j <= m,
                m == graph.edge_seq().len(),
                n == graph.val_seq().len(),
                graph.values_ok(),
                forall|j2: int| 0 <= j2 < j ==> graph.edge_ok(j2),
                vals@ == unwrap_vals(graph.val_seq()),
                order@ == sort_nodes(vals@, kind, id_seq(n as int)),
            decreases m - j,
        {
            let e = graph.edge_at(j);
            if e.a >= n || e.b >= n {
                let bad = if e.a >= n {
                    e.a
                } else {
                    e.b
                };
                proof {
                    assert(!graph.edge_ok(j as int));
                    assert(0 <= j < graph.edge_seq().len() && !graph.edge_ok(j as int) && (forall|
                        j2: int,
                    |
                        0 <= j2 < j ==> graph.edge_ok(j2)) && bad == (
                    if graph.edge_seq()[j as int].a >= graph.val_seq().len() {
                        graph.edge_seq()[j as int].a
                    } else {
                        graph.edge_seq()[j as int].b
                    }));
                }
                return Err(MorseError::MissingNode { node: bad });
            }
            j = j + 1;
        }
        proof {
            lemma_sort_nodes_multiset(vals@, kind, id_seq(n as int));
            lemma_sort_nodes_sorted(vals@, kind, id_seq(n as int));
            broadcast use vstd::seq_lib::group_to_multiset_ensures;

            assert(order@ == sort_nodes(vals@, kind, id_seq(n as int)));
            assert(nodes_sorted(vals@, kind, order@));
            assert(order@.len() == n);
            assert(id_seq(n as int).no_duplicates());
            id_seq(n as int).lemma_multiset_has_no_duplicates();
            order@.lemma_multiset_has_no_duplicates_conv();
            assert forall|k: int| 0 <= k < n implies (#[trigger] order@[k]) < n by {
                assert(order@.to_multiset().contains(order@[k])) by {
                    assert(order@.contains(order@[k]));
                }
                assert(id_seq(n as int).contains(order@[k]));
                let t = choose|t: int|
                    0 <= t < id_seq(n as int).len() && id_seq(n as int)[t] == order@[k];
            }
            assert forall|v: usize| (v as int) < n implies #[trigger] order@.contains(v) by {
                assert(id_seq(n as int)[v as int] == v);
                assert(id_seq(n as int).contains(v));
                assert(order@.to_multiset().contains(v));
            }
        }
        let mut pos: Vec<usize> = Vec::new();
        let mut z: usize = 0;
        while z < n
            invariant
                z <= n,
                pos@.len() == z,
                forall|t: int| 0 <= t < z ==> pos@[t] == 0,
            decreases n - z,
        {
            pos.push(0);
            z = z + 1;
        }
        let mut k: usize = 0;
        while k < n
            invariant
                k <= n,
                pos@.len() == n,
                order@.len() == n,
                order@.no_duplicates(),
                forall|t: int| 0 <= t < n ==> (#[trigger] order@[t]) < n,
                forall|t: int| 0 <= t < k ==> (#[trigger] pos@[order@[t] as int]) == t,
            decreases n - k,
        {
            let node = order[k];
            pos[node] = k;
            proof {
                assert forall|t: int| 0 <= t < k + 1 implies (#[trigger] pos@[order@[t] as int])
                    == t by {
                    if t < k {
                        assert(order@[t] != order@[k as int]);
                    }
                }
            }
            k = k + 1;
        }
        let data: Vec<Option<MorseData>> = {
            let mut d: Vec<Option<MorseData>> = Vec::new();
            let mut z2: usize = 0;
            while z2 < n
                invariant
                    z2 <= n,
                    d@.len() == z2,
                    forall|t: int| 0 <= t < z2 ==> (#[trigger] d@[t]) is None,
                decreases n - z2,
            {
                d.push(None);
                z2 = z2 + 1;
            }
            d
        };
        let cells = PointedUnionFind::new(n);
        let ghost c = BuildCtx {
            values: vals@,
            edges: graph.edge_seq(),
            order: order@,
            pos: pos@,
            kind,
        };
        proof {
            assert forall|v: int| 0 <= v < n implies (#[trigger] pos@[v]) < n
                && order@[pos@[v] as int] == v by {
                assert(order@.contains(v as usize));
                let t = choose|t: int| 0 <= t < order@.len() && order@[t] == v as usize;
                assert(pos@[order@[t] as int] == t);
            }
            assert forall|k1: int, k2: int| 0 <= k1 < k2 < n implies node_before(
                c.values,
                c.kind,
                #[trigger] c.order[k1],
                #[trigger] c.order[k2],
            ) by {
                assert(nodes_sorted(vals@, kind, order@));
                assert(!node_before(vals@, kind, order@[k2], order@[k1]));
                assert(order@.no_duplicates());
                assert(order@[k1] != order@[k2]);
            }
            assert(vals@.len() == n);
            assert forall|j3: int| 0 <= j3 < graph.edge_seq().len() implies (
            #[trigger] graph.edge_seq()[j3]).a < n && graph.edge_seq()[j3].b < n by {
                assert(graph.edge_ok(j3));
            }
            assert(c.wf());
            assert(cells@ =~= run_to(c, 0).reprs);
            assert(data@ =~= run_to(c, 0).data);
        }
        let mut complex = MorseComplex {
            order,
            pos,
            data,
            cells,
            filtration: Vec::new(),
            kind,
        };
        proof {
            assert(complex.mid_state(c, 0));
        }
        complex.construct_complex(&vals, graph, Ghost(c));
        proof {
            lemma_run_inv(c, c.n());
        }
        let filt = complex.compute_filtration();
        complex.filtration = filt;
        proof {
            lemma_run_inv(c, c.n());
            assert(complex.built_from(graph));
            assert(complex.queryable());
        }
        Ok(complex)
    }

    /// The final partition: every node mapped to the extremum owning its
    /// basin.
    pub fn get_complex(&self) -> (r: HashMap<usize, usize>)
        requires
            self.queryable(),
        ensures
            forall|v: int|
                0 <= v < self.order_seq().len() ==> r@.contains_key(v as usize) && r@[v as usize]
                    == data_of(self.data_seq()[self.pos_seq()[v] as int]).ancestor,
            forall|key: usize| r@.contains_key(key) ==> (key as int) < self.order_seq().len(),
    {
        broadcast use vstd::std_specs::hash::group_hash_axioms;

        let n = self.order.len();
        let mut r: HashMap<usize, usize> = HashMap::new();
        let mut k: usize = 0;
        while k < n
            invariant
                k <= n,
                self.queryable(),
                n == self.order_seq().len(),
                forall|t: int|
                    0 <= t < k ==> r@.contains_key(#[trigger] self.order_seq()[t]) && r@[
                    self.order_seq()[t]] == data_of(self.data_seq()[t]).ancestor,
                forall|key: usize| r@.contains_key(key) ==> exists|t: int|
                    0 <= t < k && key == self.order_seq()[t],
            decreases n - k,
        {
            let node = self.order[k];
            let anc = self.data[k].unwrap().ancestor;
            r.insert(node, anc);
            proof {
                assert forall|t: int| 0 <= t < k + 1 implies r@.contains_key(
                    #[trigger] self.order_seq()[t],
                ) && r@[self.order_seq()[t]] == data_of(self.data_seq()[t]).ancestor by {
                    if t < k && self.order_seq()[t] != node {
                    }
                    if t < k && self.order_seq()[t] == node {
                        assert(self.pos_seq()[node as int] == t);
                        assert(self.pos_seq()[node as int] == k as int);
                        assert(false);
                    }
                }
            }
            k = k + 1;
        }
        proof {
            assert forall|v: int| 0 <= v < n implies r@.contains_key(v as usize) && r@[v as usize]
                == data_of(self.data_seq()[self.pos_seq()[v] as int]).ancestor by {
                let t = self.pos_seq()[v] as int;
                assert(self.order_seq()[t] == v as usize);
            }
        }
        r
    }

    /// The persistence mapping: every node mapped to its lifetime. The global
    /// extremum of the direction maps to `Lifetime::Infinite`.
    pub fn get_persistence(&self) -> (r: HashMap<usize, Lifetime>)
        requires
            self.queryable(),
        ensures
            forall|v: int|
                0 <= v < self.order_seq().len() ==> r@.contains_key(v as usize) && r@[v as usize]
                    == data_of(self.data_seq()[self.pos_seq()[v] as int]).lifetime,
            forall|key: usize| r@.contains_key(key) ==> (key as int) < self.order_seq().len(),
    {
        broadcast use vstd::std_specs::hash::group_hash_axioms;

        let n = self.order.len();
        let mut r: HashMap<usize, Lifetime> = HashMap::new();
        let mut k: usize = 0;
        while k < n
            invariant
                k <= n,
                self.queryable(),
                n == self.order_seq().len(),
                forall|t: int|
                    0 <= t < k ==> r@.contains_key(#[trigger] self.order_seq()[t]) && r@[
                    self.order_seq()[t]] == data_of(self.data_seq()[t]).lifetime,
                forall|key: usize| r@.contains_key(key) ==> exists|t: int|
                    0 <= t < k && key == self.order_seq()[t],
            decreases n - k,
        {
            let node = self.order[k];
            let lt = self.data[k].unwrap().lifetime;
            r.insert(node, lt);
            proof {
                assert forall|t: int| 0 <= t < k + 1 implies r@.contains_key(
                    #[trigger] self.order_seq()[t],
                ) && r@[self.order_seq()[t]] == data_of(self.data_seq()[t]).lifetime by {
                    if t < k && self.order_seq()[t] == node {
                        assert(self.pos_seq()[node as int] == t);
                        assert(self.pos_seq()[node as int] == k as int);
                        assert(false);
                    }
                }
            }
            k = k + 1;
        }
        proof {
            assert forall|v: int| 0 <= v < n implies r@.contains_key(v as usize) && r@[v as usize]
                == data_of(self.data_seq()[self.pos_seq()[v] as int]).lifetime by {
                let t = self.pos_seq()[v] as int;
                assert(self.order_seq()[t] == v as usize);
            }
        }
        r
    }
}

/// The ascending and descending Morse complexes of one graph.
#[derive(Debug)]
pub struct MorseSmaleComplex {
    /// The complex whose basins are rooted at minima.
    pub ascending_complex: MorseComplex,
    /// The complex whose basins are rooted at maxima.
    pub descending_complex: MorseComplex,
}

impl MorseSmaleComplex {
    /// Builds both directions' complexes over the same graph, or reports the
    /// first error either construction meets.
    pub fn from_graph(graph: &ScalarGraph) -> (r: Result<MorseSmaleComplex, MorseError>)
        ensures
            r is Ok <==> graph.values_ok() && graph.edges_ok(),
            match r {
                Ok(msc) => {
                    &&& msc.ascending_complex.built_from(graph)
                    &&& msc.ascending_complex.queryable()
                    &&& msc.ascending_complex.kind_of() == MorseKind::Ascending
                    &&& msc.descending_complex.built_from(graph)
                    &&& msc.descending_complex.queryable()
                    &&& msc.descending_complex.kind_of() == MorseKind::Descending
                },
                Err(e) => match e {
                    MorseError::NanValue { node } => {
                        &&& (node as int) < graph.val_seq().len()
                        &&& graph.val_seq()[node as int] is None
                        &&& forall|j: int| 0 <= j < node ==> graph.val_seq()[j] is Some
                    },
                    MorseError::MissingNode { node } => {
                        &&& graph.values_ok()
                        &&& exists|j: int|
                            0 <= j < graph.edge_seq().len() && !graph.edge_ok(j) && (forall|
                                j2: int,
                            |
                                0 <= j2 < j ==> graph.edge_ok(j2)) && node == (
                            if graph.edge_seq()[j].a >= graph.val_seq().len() {
                                (#[trigger] graph.edge_seq()[j]).a
                            } else {
                                graph.edge_seq()[j].b
                            })
                    },
                    _ => false,
                },
            },
    {
        let ascending_complex = match MorseComplex::from_graph(MorseKind::Ascending, graph) {
            Ok(c) => c,
            Err(e) => {
                return Err(e);
            },
        };
        let descending_complex = match MorseComplex::from_graph(MorseKind::Descending, graph) {
            Ok(c) => c,
            Err(e) => {
                return Err(e);
            },
        };
        Ok(MorseSmaleComplex { ascending_complex, descending_complex })
    }
}

} // verus!
