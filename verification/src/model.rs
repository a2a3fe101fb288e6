//! The mathematical model of complex construction: what each processing step
//! does to the partition and to the per-node records, as spec functions.
use vstd::prelude::*;

use crate::MorseKind;
use crate::graph::{GraphEdge, nbrs_of};
use crate::points::{Lifetime, MorseData, MorseFiltrationStep};

verus! {

/// The usable scalar readings of a graph, one per node.
pub open spec fn unwrap_vals(s: Seq<Option<i64>>) -> Seq<i64> {
    Seq::new(s.len(), |v: int| opt_val(s[v]))
}

/// The scalar reading of a node, under the premise that it is usable.
pub open spec fn opt_val(o: Option<i64>) -> i64 {
    match o {
        Some(x) => x,
        None => 0,
    }
}

/// The record of a processed position, under the premise that it exists.
pub open spec fn data_of(d: Option<MorseData>) -> MorseData {
    match d {
        Some(m) => m,
        None => MorseData { lifetime: Lifetime::Finite(0), merge_parent: None, ancestor: 0 },
    }
}

pub open spec fn opt_pos(o: Option<usize>) -> int {
    match o {
        Some(s) => s as int,
        None => 0,
    }
}

/// The immutable context of one construction run: the usable scalar readings,
/// the edge list, the processing order with its inverse, and the direction.
pub struct BuildCtx {
    pub values: Seq<i64>,
    pub edges: Seq<GraphEdge>,
    pub order: Seq<usize>,
    pub pos: Seq<usize>,
    pub kind: MorseKind,
}

/// `u` is processed strictly before `v`: its value is strictly more extreme
/// for the direction, or the values are equal and `u` has the smaller node id
/// (the deterministic tie-break).
pub open spec fn node_before(values: Seq<i64>, kind: MorseKind, u: usize, v: usize) -> bool {
    let a = values[u as int];
    let b = values[v as int];
    match kind {
        MorseKind::Descending => a > b || (a == b && u < v),
        MorseKind::Ascending => a < b || (a == b && u < v),
    }
}

impl BuildCtx {
    pub open spec fn n(self) -> int {
        self.values.len() as int
    }

    /// The value of the node at position `p` of the processing order.
    pub open spec fn val_at(self, p: int) -> i64 {
        self.values[self.order[p] as int]
    }

    /// Node `u`'s value is at least as extreme as node `v`'s for the direction.
    pub open spec fn value_geq(self, u: usize, v: usize) -> bool {
        match self.kind {
            MorseKind::Descending => self.values[u as int] >= self.values[v as int],
            MorseKind::Ascending => self.values[u as int] <= self.values[v as int],
        }
    }

    pub open spec fn wf(self) -> bool {
        &&& self.values.len() <= usize::MAX
        &&& self.order.len() == self.n()
        &&& self.pos.len() == self.n()
        &&& forall|k: int| 0 <= k < self.n() ==> (#[trigger] self.order[k]) < self.n()
        &&& forall|k: int| 0 <= k < self.n() ==> (#[trigger] self.pos[self.order[k] as int]) == k
        &&& forall|v: int| 0 <= v < self.n() ==> (#[trigger] self.pos[v]) < self.n()
        &&& forall|v: int| 0 <= v < self.n() ==> (#[trigger] self.order[self.pos[v] as int]) == v
        &&& forall|k1: int, k2: int|
            0 <= k1 < k2 < self.n() ==> node_before(
                self.values,
                self.kind,
                #[trigger] self.order[k1],
                #[trigger] self.order[k2],
            )
        &&& forall|j: int|
            0 <= j < self.edges.len() ==> (#[trigger] self.edges[j]).a < self.n()
                && self.edges[j].b < self.n()
    }

    /// The already-processed neighbors of the node at position `i`, as
    /// (position, edge weight) pairs in edge-list order.
    pub open spec fn higher_at(self, i: int) -> Seq<(usize, u64)> {
        higher_of(nbrs_of(self.edges, self.order[i]), self.pos, i)
    }

    /// An earlier position holds an at-least-as-extreme value.
    pub proof fn lemma_pos_value(self, k1: int, k2: int)
        requires
            self.wf(),
            0 <= k1 <= k2 < self.n(),
        ensures
            self.value_geq(self.order[k1], self.order[k2]),
    {
    }
}

/// The node at position `i` of the order is a local extremum seed: it has no
/// already-processed neighbor.
pub open spec fn seed_at(c: BuildCtx, i: int) -> bool {
    c.higher_at(i).len() == 0
}

/// Restriction of a neighbor list to nodes at positions before `i`, each
/// mapped to its position.
pub open spec fn higher_of(nbrs: Seq<(usize, u64)>, pos: Seq<usize>, i: int) -> Seq<
    (usize, u64),
>
    decreases nbrs.len(),
{
    if nbrs.len() == 0 {
        Seq::empty()
    } else {
        let rest = higher_of(nbrs.drop_last(), pos, i);
        let last = nbrs.last();
        if (pos[last.0 as int] as int) < i {
            rest + seq![(pos[last.0 as int], last.1)]
        } else {
            rest
        }
    }
}

/// The state after some prefix of the positions has been processed.
pub struct BuildState {
    /// The visible representative of each position's basin.
    pub reprs: Seq<usize>,
    /// The merge record of each position, once processed.
    pub data: Seq<Option<MorseData>>,
    /// For a destroyed basin, the position of the saddle that destroyed it.
    pub saddle: Seq<Option<usize>>,
}

pub open spec fn init_state(n: int) -> BuildState {
    BuildState {
        reprs: Seq::new(n as nat, |z: int| z as usize),
        data: Seq::new(n as nat, |z: int| None),
        saddle: Seq::new(n as nat, |z: int| None),
    }
}

/// The distinct basin representatives reached from the positions of `hs`, in
/// first-occurrence order.
pub open spec fn cells_of(hs: Seq<(usize, u64)>, reprs: Seq<usize>) -> Seq<usize>
    decreases hs.len(),
{
    if hs.len() == 0 {
        Seq::empty()
    } else {
        let pre = cells_of(hs.drop_last(), reprs);
        let r = reprs[hs.last().0 as int];
        if pre.contains(r) {
            pre
        } else {
            pre.push(r)
        }
    }
}

/// Absolute value, as a mathematical integer.
pub open spec fn abs_of(v: i64) -> int {
    if v >= 0 {
        v as int
    } else {
        -(v as int)
    }
}

/// Absolute difference, as a mathematical integer.
pub open spec fn abs_gap(a: i64, b: i64) -> int {
    if a >= b {
        a - b
    } else {
        b - a
    }
}

/// Whether the grade `|vn| / wn` is strictly steeper than `|vc| / wc`.
///
/// Grades are compared as exact rationals, by cross-multiplication. A zero
/// weight under a nonzero value makes a grade infinitely steep; a zero weight
/// under a zero value makes it undefined, and an undefined grade never wins a
/// comparison, in either role.
pub open spec fn grade_gt(vn: i64, wn: u64, vc: i64, wc: u64) -> bool {
    let an = abs_of(vn);
    let ac = abs_of(vc);
    if wn == 0 && an == 0 {
        false
    } else if wc == 0 && ac == 0 {
        false
    } else if wc == 0 {
        false
    } else if wn == 0 {
        true
    } else {
        an * (wc as int) > ac * (wn as int)
    }
}

/// Whether the basin whose extremum sits at position `p` beats the one at
/// position `q`: its extremum value is strictly more extreme.
pub open spec fn strictly_better(c: BuildCtx, p: usize, q: usize) -> bool {
    match c.kind {
        MorseKind::Descending => c.val_at(p as int) > c.val_at(q as int),
        MorseKind::Ascending => c.val_at(p as int) < c.val_at(q as int),
    }
}

/// The surviving basin among `cells`: the first one, in order, whose extremum
/// value no later one strictly exceeds.
pub open spec fn best_cell(c: BuildCtx, cells: Seq<usize>) -> usize
    recommends
        cells.len() > 0,
    decreases cells.len(),
{
    if cells.len() <= 1 {
        cells[0]
    } else {
        let b = best_cell(c, cells.drop_last());
        let cand = cells.last();
        if strictly_better(c, cand, b) {
            cand
        } else {
            b
        }
    }
}

/// The steepest already-processed neighbor: the first one, in neighbor order,
/// whose grade no later one strictly exceeds.
pub open spec fn steepest_pair(c: BuildCtx, hs: Seq<(usize, u64)>) -> (usize, u64)
    recommends
        hs.len() > 0,
    decreases hs.len(),
{
    if hs.len() <= 1 {
        hs[0]
    } else {
        let b = steepest_pair(c, hs.drop_last());
        let cand = hs.last();
        if grade_gt(c.val_at(cand.0 as int), cand.1, c.val_at(b.0 as int), b.1) {
            cand
        } else {
            b
        }
    }
}

/// The visible-representative table after `union(x, y)`: the basins of the
/// positions `x` and `y` merge and keep `x`'s representative.
pub open spec fn union_reprs(reprs: Seq<usize>, x: int, y: int) -> Seq<usize> {
    Seq::new(
        reprs.len(),
        |z: int|
            if reprs[z] == reprs[x] || reprs[z] == reprs[y] {
                reprs[x]
            } else {
                reprs[z]
            },
    )
}

/// Merges the joining position `i` and then every cell of `cells` into the
/// surviving cell `mc`, in order.
pub open spec fn merge_reprs(reprs: Seq<usize>, cells: Seq<usize>, mc: usize, i: usize) -> Seq<
    usize,
>
    decreases cells.len(),
{
    if cells.len() == 0 {
        union_reprs(reprs, mc as int, i as int)
    } else {
        let pre = merge_reprs(reprs, cells.drop_last(), mc, i);
        let cl = cells.last();
        if cl == mc {
            pre
        } else {
            union_reprs(pre, mc as int, cl as int)
        }
    }
}

/// Records the merge events raised by the saddle at position `i`: every
/// destroyed cell's extremum gets its lifetime and its merge parent; its
/// ancestor is unchanged.
pub open spec fn destroy_data(
    c: BuildCtx,
    data: Seq<Option<MorseData>>,
    cells: Seq<usize>,
    mc: usize,
    i: usize,
) -> Seq<Option<MorseData>>
    decreases cells.len(),
{
    if cells.len() == 0 {
        data
    } else {
        let pre = destroy_data(c, data, cells.drop_last(), mc, i);
        let cl = cells.last();
        if cl == mc {
            pre
        } else {
            pre.update(
                cl as int,
                Some(
                    MorseData {
                        lifetime: Lifetime::Finite(
                            abs_gap(c.val_at(cl as int), c.val_at(i as int)) as u64,
                        ),
                        merge_parent: Some(c.order[mc as int]),
                        ancestor: data_of(data[cl as int]).ancestor,
                    },
                ),
            )
        }
    }
}

/// Records, for every destroyed cell, the saddle position that destroyed it.
pub open spec fn destroy_saddle(
    saddle: Seq<Option<usize>>,
    cells: Seq<usize>,
    mc: usize,
    i: usize,
) -> Seq<Option<usize>>
    decreases cells.len(),
{
    if cells.len() == 0 {
        saddle
    } else {
        let pre = destroy_saddle(saddle, cells.drop_last(), mc, i);
        let cl = cells.last();
        if cl == mc {
            pre
        } else {
            pre.update(cl as int, Some(i))
        }
    }
}

/// The partition after the node at position `i` is processed.
pub open spec fn step_reprs(c: BuildCtx, st: BuildState, i: int) -> Seq<usize> {
    let hs = c.higher_at(i);
    if hs.len() == 0 {
        st.reprs
    } else {
        let cells = cells_of(hs, st.reprs);
        if cells.len() == 1 {
            union_reprs(st.reprs, hs[0].0 as int, i)
        } else {
            merge_reprs(st.reprs, cells, best_cell(c, cells), i as usize)
        }
    }
}

/// The records after the merge events of position `i`, before the node's own
/// record is stored.
pub open spec fn step_data_pre(c: BuildCtx, st: BuildState, i: int) -> Seq<Option<MorseData>> {
    let hs = c.higher_at(i);
    if hs.len() == 0 {
        st.data
    } else {
        let cells = cells_of(hs, st.reprs);
        if cells.len() == 1 {
            st.data
        } else {
            destroy_data(c, st.data, cells, best_cell(c, cells), i as usize)
        }
    }
}

/// The ancestor assigned to the node at position `i`: itself for a seed, the
/// first neighbor's ancestor for an unambiguous absorption, and the steepest
/// neighbor's ancestor for a saddle.
pub open spec fn step_anc(c: BuildCtx, st: BuildState, i: int) -> usize {
    let hs = c.higher_at(i);
    if hs.len() == 0 {
        c.order[i]
    } else {
        let cells = cells_of(hs, st.reprs);
        if cells.len() == 1 {
            data_of(st.data[hs[0].0 as int]).ancestor
        } else {
            data_of(st.data[steepest_pair(c, hs).0 as int]).ancestor
        }
    }
}

pub open spec fn step_lifetime(c: BuildCtx, i: int) -> Lifetime {
    if c.higher_at(i).len() == 0 {
        Lifetime::Infinite
    } else {
        Lifetime::Finite(0)
    }
}

pub open spec fn step_saddle(c: BuildCtx, st: BuildState, i: int) -> Seq<Option<usize>> {
    let hs = c.higher_at(i);
    if hs.len() == 0 {
        st.saddle
    } else {
        let cells = cells_of(hs, st.reprs);
        if cells.len() == 1 {
            st.saddle
        } else {
            destroy_saddle(st.saddle, cells, best_cell(c, cells), i as usize)
        }
    }
}

/// One full processing step.
pub open spec fn step_state(c: BuildCtx, st: BuildState, i: int) -> BuildState {
    BuildState {
        reprs: step_reprs(c, st, i),
        data: step_data_pre(c, st, i).update(
            i,
            Some(
                MorseData {
                    lifetime: step_lifetime(c, i),
                    merge_parent: None,
                    ancestor: step_anc(c, st, i),
                },
            ),
        ),
        saddle: step_saddle(c, st, i),
    }
}

/// The state after the first `k` positions have been processed.
pub open spec fn run_to(c: BuildCtx, k: int) -> BuildState
    decreases k,
{
    if k <= 0 {
        init_state(c.n())
    } else {
        step_state(c, run_to(c, k - 1), k - 1)
    }
}

/// The unsorted merge events of the first `k` positions, in position order.
pub open spec fn collect_steps(
    order: Seq<usize>,
    data: Seq<Option<MorseData>>,
    k: int,
) -> Seq<MorseFiltrationStep>
    decreases k,
{
    if k <= 0 {
        Seq::empty()
    } else {
        let pre = collect_steps(order, data, k - 1);
        match data[k - 1] {
            Some(d) => match d.merge_parent {
                Some(p) => pre + seq![
                    MorseFiltrationStep {
                        time: time_of(d.lifetime),
                        destroyed_cell: order[k - 1],
                        owning_cell: p,
                    },
                ],
                None => pre,
            },
            None => pre,
        }
    }
}

/// The finite time of a lifetime; a destroyed basin always has one.
pub open spec fn time_of(l: Lifetime) -> u64 {
    match l {
        Lifetime::Finite(t) => t,
        Lifetime::Infinite => 0,
    }
}

/// Insertion of one event into a time-sorted sequence, after all events of
/// the same time.
pub open spec fn insert_step(
    sorted: Seq<MorseFiltrationStep>,
    e: MorseFiltrationStep,
) -> Seq<MorseFiltrationStep>
    decreases sorted.len(),
{
    if sorted.len() == 0 {
        seq![e]
    } else if sorted.last().time <= e.time {
        sorted.push(e)
    } else {
        insert_step(sorted.drop_last(), e).push(sorted.last())
    }
}

/// Stable insertion sort of merge events by time.
pub open spec fn sort_steps(s: Seq<MorseFiltrationStep>) -> Seq<MorseFiltrationStep>
    decreases s.len(),
{
    if s.len() == 0 {
        Seq::empty()
    } else {
        insert_step(sort_steps(s.drop_last()), s.last())
    }
}

/// Insertion of one node into a sequence sorted by processing priority, after
/// all nodes it does not strictly precede.
pub open spec fn insert_node(
    values: Seq<i64>,
    kind: MorseKind,
    sorted: Seq<usize>,
    e: usize,
) -> Seq<usize>
    decreases sorted.len(),
{
    if sorted.len() == 0 {
        seq![e]
    } else if !node_before(values, kind, e, sorted.last()) {
        sorted.push(e)
    } else {
        insert_node(values, kind, sorted.drop_last(), e).push(sorted.last())
    }
}

/// Stable insertion sort of nodes by processing priority.
pub open spec fn sort_nodes(values: Seq<i64>, kind: MorseKind, s: Seq<usize>) -> Seq<usize>
    decreases s.len(),
{
    if s.len() == 0 {
        Seq::empty()
    } else {
        insert_node(values, kind, sort_nodes(values, kind, s.drop_last()), s.last())
    }
}

/// The node ids `0, 1, ..., n - 1` in id order.
pub open spec fn id_seq(n: int) -> Seq<usize> {
    Seq::new(n as nat, |z: int| z as usize)
}

} // verus!
