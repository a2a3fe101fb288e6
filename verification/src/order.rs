//! The processing order: stable insertion sorts of nodes by scalar priority
//! and of merge events by time, with the lemmas that characterize them.
use vstd::prelude::*;

use crate::MorseKind;
use crate::model::{insert_node, insert_step, node_before, sort_nodes, sort_steps};
use crate::points::MorseFiltrationStep;

verus! {

/// Whether node `u` is processed strictly before node `v`.
pub fn node_before_exec(vals: &Vec<i64>, kind: MorseKind, u: usize, v: usize) -> (r: bool)
    requires
        u < vals@.len(),
        v < vals@.len(),
    ensures
        r == node_before(vals@, kind, u, v),
{
    let a = vals[u];
    let b = vals[v];
    match kind {
        MorseKind::Descending => a > b || (a == b && u < v),
        MorseKind::Ascending => a < b || (a == b && u < v),
    }
}

/// Inserting a node at the position its priority calls for is what
/// `insert_node` does.
proof fn lemma_insert_node_at(
    values: Seq<i64>,
    kind: MorseKind,
    s: Seq<usize>,
    e: usize,
    k: int,
)
    requires
        0 <= k <= s.len(),
        forall|t: int| k <= t < s.len() ==> node_before(values, kind, e, #[trigger] s[t]),
        k > 0 ==> !node_before(values, kind, e, s[k - 1]),
    ensures
        insert_node(values, kind, s, e) == s.insert(k, e),
    decreases s.len(),
{
    if s.len() == 0 {
        assert(insert_node(values, kind, s, e) =~= s.insert(0, e));
    } else if k == s.len() {
        assert(!node_before(values, kind, e, s.last()));
        assert(insert_node(values, kind, s, e) =~= s.insert(k, e));
    } else {
        assert(node_before(values, kind, e, s.last())) by {
            assert(s[s.len() - 1] == s.last());
        }
        lemma_insert_node_at(values, kind, s.drop_last(), e, k);
        assert(insert_node(values, kind, s, e) == s.drop_last().insert(k, e).push(s.last()));
        assert(s.drop_last().insert(k, e).push(s.last()) =~= s.insert(k, e));
    }
}

/// `insert_node` adds exactly the inserted element to the multiset.
proof fn lemma_insert_node_multiset(values: Seq<i64>, kind: MorseKind, s: Seq<usize>, e: usize)
    ensures
        insert_node(values, kind, s, e).to_multiset() =~= s.to_multiset().insert(e),
        insert_node(values, kind, s, e).len() == s.len() + 1,
    decreases s.len(),
{
    broadcast use vstd::seq_lib::group_to_multiset_ensures;

    if s.len() == 0 {
        assert(insert_node(values, kind, s, e) =~= Seq::empty().push(e));
        assert(s.to_multiset() =~= Seq::<usize>::empty().to_multiset());
    } else if !node_before(values, kind, e, s.last()) {
    } else {
        lemma_insert_node_multiset(values, kind, s.drop_last(), e);
        assert(s.drop_last().push(s.last()) =~= s);
        assert(insert_node(values, kind, s, e).to_multiset() =~= s.drop_last().to_multiset()
            .insert(e).insert(s.last()));
        assert(s.to_multiset() =~= s.drop_last().to_multiset().insert(s.last()));
    }
}

/// Sorting the nodes keeps the multiset of node ids and the length.
pub proof fn lemma_sort_nodes_multiset(values: Seq<i64>, kind: MorseKind, s: Seq<usize>)
    ensures
        sort_nodes(values, kind, s).to_multiset() =~= s.to_multiset(),
        sort_nodes(values, kind, s).len() == s.len(),
    decreases s.len(),
{
    broadcast use vstd::seq_lib::group_to_multiset_ensures;

    if s.len() > 0 {
        lemma_sort_nodes_multiset(values, kind, s.drop_last());
        lemma_insert_node_multiset(values, kind, sort_nodes(values, kind, s.drop_last()), s.last());
        assert(s.drop_last().push(s.last()) =~= s);
        assert(s.to_multiset() =~= s.drop_last().to_multiset().insert(s.last()));
    }
}

/// Whether a node sequence is sorted: no node strictly precedes an earlier one.
pub open spec fn nodes_sorted(values: Seq<i64>, kind: MorseKind, s: Seq<usize>) -> bool {
    forall|a: int, b: int|
        0 <= a < b < s.len() ==> !node_before(values, kind, #[trigger] s[b], #[trigger] s[a])
}

/// `insert_node` keeps a node sequence sorted.
proof fn lemma_insert_node_sorted(values: Seq<i64>, kind: MorseKind, s: Seq<usize>, e: usize)
    requires
        nodes_sorted(values, kind, s),
    ensures
        nodes_sorted(values, kind, insert_node(values, kind, s, e)),
    decreases s.len(),
{
    let out = insert_node(values, kind, s, e);
    if s.len() == 0 {
    } else if !node_before(values, kind, e, s.last()) {
        assert forall|a: int, b: int| 0 <= a < b < out.len() implies !node_before(
            values,
            kind,
            #[trigger] out[b],
            #[trigger] out[a],
        ) by {
            if b == out.len() - 1 {
                assert(out[b] == e);
                if a == s.len() - 1 {
                    assert(out[a] == s.last());
                } else {
                    assert(out[a] == s[a]);
                    assert(!node_before(values, kind, s.last(), s[a]));
                    assert(s[s.len() - 1] == s.last());
                }
            } else {
                assert(out[a] == s[a] && out[b] == s[b]);
            }
        }
    } else {
        lemma_insert_node_sorted(values, kind, s.drop_last(), e);
        let inner = insert_node(values, kind, s.drop_last(), e);
        lemma_insert_node_multiset(values, kind, s.drop_last(), e);
        assert forall|a: int, b: int| 0 <= a < b < out.len() implies !node_before(
            values,
            kind,
            #[trigger] out[b],
            #[trigger] out[a],
        ) by {
            if b == out.len() - 1 {
                assert(out[b] == s.last());
                assert(out[a] == inner[a]);
                // every element of the sorted prefix does not follow the last
                broadcast use vstd::seq_lib::group_to_multiset_ensures;

                assert(inner.to_multiset().contains(inner[a]));
                assert(inner.to_multiset() =~= s.drop_last().to_multiset().insert(e));
                if inner[a] == e {
                    assert(!node_before(values, kind, s.last(), e)) by {
                        assert(node_before(values, kind, e, s.last()));
                    }
                } else {
                    assert(s.drop_last().to_multiset().contains(inner[a]));
                    assert(s.drop_last().contains(inner[a]));
                    let t = choose|t: int|
                        0 <= t < s.drop_last().len() && s.drop_last()[t] == inner[a];
                    assert(s[t] == inner[a]);
                    assert(!node_before(values, kind, s.last(), s[t])) by {
                        assert(s[s.len() - 1] == s.last());
                    }
                }
            } else {
                assert(out[a] == inner[a] && out[b] == inner[b]);
            }
        }
    }
}

/// Sorting the nodes sorts them.
pub proof fn lemma_sort_nodes_sorted(values: Seq<i64>, kind: MorseKind, s: Seq<usize>)
    ensures
        nodes_sorted(values, kind, sort_nodes(values, kind, s)),
    decreases s.len(),
{
    if s.len() > 0 {
        lemma_sort_nodes_sorted(values, kind, s.drop_last());
        lemma_insert_node_sorted(values, kind, sort_nodes(values, kind, s.drop_last()), s.last());
    }
}

/// Stable insertion sort of node ids by processing priority.
pub fn sort_node_ids(vals: &Vec<i64>, kind: MorseKind, ids: &Vec<usize>) -> (out: Vec<usize>)
    requires
        forall|t: int| 0 <= t < ids@.len() ==> (#[trigger] ids@[t]) < vals@.len(),
    ensures
        out@ == sort_nodes(vals@, kind, ids@),
{
    let mut out: Vec<usize> = Vec::new();
    let mut j: usize = 0;
    proof {
        assert(ids@.subrange(0, 0) =~= Seq::<usize>::empty());
    }
    while j < ids.len()
        invariant
            j <= ids@.len(),
            forall|t: int| 0 <= t < ids@.len() ==> (#[trigger] ids@[t]) < vals@.len(),
            out@ == sort_nodes(vals@, kind, ids@.subrange(0, j as int)),
            forall|t: int| 0 <= t < out@.len() ==> (#[trigger] out@[t]) < vals@.len(),
        decreases ids@.len() - j,
    {
        let e = ids[j];
        let mut k: usize = out.len();
        while k > 0 && node_before_exec(vals, kind, e, out[k - 1])
            invariant
                k <= out@.len(),
                e < vals@.len(),
                forall|t: int| 0 <= t < out@.len() ==> (#[trigger] out@[t]) < vals@.len(),
                forall|t: int|
                    k <= t < out@.len() ==> node_before(vals@, kind, e, #[trigger] out@[t]),
            decreases k,
        {
            k = k - 1;
        }
        proof {
            lemma_insert_node_at(vals@, kind, out@, e, k as int);
            lemma_insert_node_multiset(vals@, kind, out@, e);
            broadcast use vstd::seq_lib::group_to_multiset_ensures;

            assert(ids@.subrange(0, j as int + 1).drop_last() =~= ids@.subrange(0, j as int));
            assert(ids@.subrange(0, j as int + 1).last() == ids@[j as int]);
            assert forall|t: int|
                0 <= t < out@.insert(k as int, e).len() implies (#[trigger] out@.insert(
                k as int,
                e,
            )[t]) < vals@.len() by {
                if t < k {
                    assert(out@.insert(k as int, e)[t] == out@[t]);
                } else if t == k {
                } else {
                    assert(out@.insert(k as int, e)[t] == out@[t - 1]);
                }
            }
        }
        out.insert(k, e);
        j = j + 1;
    }
    proof {
        assert(ids@.subrange(0, ids@.len() as int) =~= ids@);
    }
    out
}

/// Inserting a merge event at the position its time calls for is what
/// `insert_step` does.
proof fn lemma_insert_step_at(s: Seq<MorseFiltrationStep>, e: MorseFiltrationStep, k: int)
    requires
        0 <= k <= s.len(),
        forall|t: int| k <= t < s.len() ==> (#[trigger] s[t]).time > e.time,
        k > 0 ==> s[k - 1].time <= e.time,
    ensures
        insert_step(s, e) == s.insert(k, e),
    decreases s.len(),
{
    if s.len() == 0 {
        assert(insert_step(s, e) =~= s.insert(0, e));
    } else if k == s.len() {
        assert(s.last().time <= e.time);
        assert(insert_step(s, e) =~= s.insert(k, e));
    } else {
        assert(s.last().time > e.time) by {
            assert(s[s.len() - 1] == s.last());
        }
        lemma_insert_step_at(s.drop_last(), e, k);
        assert(insert_step(s, e) == s.drop_last().insert(k, e).push(s.last()));
        assert(s.drop_last().insert(k, e).push(s.last()) =~= s.insert(k, e));
    }
}

/// Stable insertion sort of merge events by time.
pub fn sort_steps_exec(src: &Vec<MorseFiltrationStep>) -> (out: Vec<MorseFiltrationStep>)
    ensures
        out@ == sort_steps(src@),
{
    let mut out: Vec<MorseFiltrationStep> = Vec::new();
    let mut j: usize = 0;
    proof {
        assert(src@.subrange(0, 0) =~= Seq::<MorseFiltrationStep>::empty());
    }
    while j < src.len()
        invariant
            j <= src@.len(),
            out@ == sort_steps(src@.subrange(0, j as int)),
        decreases src@.len() - j,
    {
        let e = src[j];
        let mut k: usize = out.len();
        while k > 0 && out[k - 1].time > e.time
            invariant
                k <= out@.len(),
                forall|t: int| k <= t < out@.len() ==> (#[trigger] out@[t]).time > e.time,
            decreases k,
        {
            k = k - 1;
        }
        proof {
            lemma_insert_step_at(out@, e, k as int);
            assert(src@.subrange(0, j as int + 1).drop_last() =~= src@.subrange(0, j as int));
            assert(src@.subrange(0, j as int + 1).last() == src@[j as int]);
        }
        out.insert(k, e);
        j = j + 1;
    }
    proof {
        assert(src@.subrange(0, src@.len() as int) =~= src@);
    }
    out
}

/// The sorted merge events are in nondecreasing time order.
pub proof fn lemma_sort_steps_sorted(s: Seq<MorseFiltrationStep>)
    ensures
        forall|a: int, b: int|
            0 <= a < b < sort_steps(s).len() ==> (#[trigger] sort_steps(s)[a]).time
                <= (#[trigger] sort_steps(s)[b]).time,
    decreases s.len(),
{
    if s.len() > 0 {
        lemma_sort_steps_sorted(s.drop_last());
        lemma_insert_step_sorted(sort_steps(s.drop_last()), s.last());
    }
}

/// `insert_step` keeps the events in nondecreasing time order.
proof fn lemma_insert_step_sorted(s: Seq<MorseFiltrationStep>, e: MorseFiltrationStep)
    requires
        forall|a: int, b: int|
            0 <= a < b < s.len() ==> (#[trigger] s[a]).time <= (#[trigger] s[b]).time,
    ensures
        forall|a: int, b: int|
            0 <= a < b < insert_step(s, e).len() ==> (#[trigger] insert_step(s, e)[a]).time
                <= (#[trigger] insert_step(s, e)[b]).time,
    decreases s.len(),
{
    let out = insert_step(s, e);
    if s.len() == 0 {
    } else if s.last().time <= e.time {
        assert forall|a: int, b: int| 0 <= a < b < out.len() implies (#[trigger] out[a]).time
            <= (#[trigger] out[b]).time by {
            if b == out.len() - 1 {
                if a < s.len() {
                    assert(out[a] == s[a]);
                    if a < s.len() - 1 {
                        assert(s[a].time <= s[s.len() - 1].time);
                    }
                    assert(s[s.len() - 1] == s.last());
                }
            } else {
                assert(out[a] == s[a] && out[b] == s[b]);
            }
        }
    } else {
        lemma_insert_step_sorted(s.drop_last(), e);
        lemma_insert_step_multiset(s.drop_last(), e);
        let inner = insert_step(s.drop_last(), e);
        assert forall|a: int, b: int| 0 <= a < b < out.len() implies (#[trigger] out[a]).time
            <= (#[trigger] out[b]).time by {
            if b == out.len() - 1 {
                assert(out[b] == s.last());
                assert(out[a] == inner[a]);
                broadcast use vstd::seq_lib::group_to_multiset_ensures;

                assert(inner.to_multiset().contains(inner[a]));
                assert(inner.to_multiset() =~= s.drop_last().to_multiset().insert(e));
                if inner[a] == e {
                } else {
                    assert(s.drop_last().to_multiset().contains(inner[a]));
                    assert(s.drop_last().contains(inner[a]));
                    let t = choose|t: int|
                        0 <= t < s.drop_last().len() && s.drop_last()[t] == inner[a];
                    assert(s[t] == inner[a]);
                    assert(s[t].time <= s[s.len() - 1].time);
                    assert(s[s.len() - 1] == s.last());
                }
            } else {
                assert(out[a] == inner[a] && out[b] == inner[b]);
            }
        }
    }
}

/// `insert_step` adds exactly the inserted event to the multiset.
pub proof fn lemma_insert_step_multiset(s: Seq<MorseFiltrationStep>, e: MorseFiltrationStep)
    ensures
        insert_step(s, e).to_multiset() =~= s.to_multiset().insert(e),
        insert_step(s, e).len() == s.len() + 1,
    decreases s.len(),
{
    broadcast use vstd::seq_lib::group_to_multiset_ensures;

    if s.len() == 0 {
        assert(insert_step(s, e) =~= Seq::empty().push(e));
        assert(s.to_multiset() =~= Seq::<MorseFiltrationStep>::empty().to_multiset());
    } else if s.last().time <= e.time {
    } else {
        lemma_insert_step_multiset(s.drop_last(), e);
        assert(s.drop_last().push(s.last()) =~= s);
        assert(insert_step(s, e).to_multiset() =~= s.drop_last().to_multiset().insert(e).insert(
            s.last(),
        ));
        assert(s.to_multiset() =~= s.drop_last().to_multiset().insert(s.last()));
    }
}

/// Sorting the merge events keeps their multiset and length.
pub proof fn lemma_sort_steps_multiset(s: Seq<MorseFiltrationStep>)
    ensures
        sort_steps(s).to_multiset() =~= s.to_multiset(),
        sort_steps(s).len() == s.len(),
    decreases s.len(),
{
    broadcast use vstd::seq_lib::group_to_multiset_ensures;

    if s.len() > 0 {
        lemma_sort_steps_multiset(s.drop_last());
        lemma_insert_step_multiset(sort_steps(s.drop_last()), s.last());
        assert(s.drop_last().push(s.last()) =~= s);
        assert(s.to_multiset() =~= s.drop_last().to_multiset().insert(s.last()));
    }
}

} // verus!
