use vstd::prelude::*;

verus! {

/// Declares petgraph's disjoint-set structure to the verifier; values of it
/// are handled only through the trusted functions below.
#[verifier::external_type_specification]
#[verifier::external_body]
#[verifier::reject_recursive_types(K)]
pub struct ExUnionFind<K>(petgraph::unionfind::UnionFind<K>);

/// The representative of each element's set, indexed by element.
pub uninterp spec fn uf_repr(uf: petgraph::unionfind::UnionFind<usize>) -> Seq<usize>;

/// Relies on petgraph's `UnionFind::new`: `n` singleton sets, each element its
/// own representative.
#[verifier::external_body]
fn uf_new(n: usize) -> (uf: petgraph::unionfind::UnionFind<usize>)
    ensures
        uf_repr(uf).len() == n,
        forall|i: int| 0 <= i < n ==> uf_repr(uf)[i] == i,
{
    petgraph::unionfind::UnionFind::new(n)
}

/// Relies on petgraph's `UnionFind::find`: returns the representative of the
/// set containing `x`; it panics only when `x` is out of bounds.
#[verifier::external_body]
fn uf_find(uf: &petgraph::unionfind::UnionFind<usize>, x: usize) -> (r: usize)
    requires
        x < uf_repr(*uf).len(),
    ensures
        r == uf_repr(*uf)[x as int],
{
    uf.find(x)
}

/// Relies on petgraph's `UnionFind::union`: merges the sets containing `x` and
/// `y`; the merged set's representative is one of the two old representatives
/// (which one depends on internal ranks), and all other sets are unchanged.
/// It panics only when `x` or `y` is out of bounds.
#[verifier::external_body]
fn uf_union(uf: &mut petgraph::unionfind::UnionFind<usize>, x: usize, y: usize)
    requires
        x < uf_repr(*old(uf)).len(),
        y < uf_repr(*old(uf)).len(),
    ensures
        uf_repr(*final(uf)).len() == uf_repr(*old(uf)).len(),
        uf_repr(*final(uf))[x as int] == uf_repr(*old(uf))[x as int] || uf_repr(*final(uf))[
            x as int] == uf_repr(*old(uf))[y as int],
        forall|z: int|
            0 <= z < uf_repr(*old(uf)).len() ==> uf_repr(*final(uf))[z] == (
            if uf_repr(*old(uf))[z] == uf_repr(*old(uf))[x as int] || uf_repr(*old(uf))[z]
                == uf_repr(*old(uf))[y as int] {
                uf_repr(*final(uf))[x as int]
            } else {
                uf_repr(*old(uf))[z]
            }),
{
    uf.union(x, y);
}

/// A partition of the indices `0..n` in which the representative of the left
/// argument of every `union` call stays the canonical representative of the
/// merged set.
///
/// The underlying union-find re-roots its trees as it pleases; this structure
/// layers a redirection table over the internal representatives so that the
/// visible representative of a merged set is always the one the left side had
/// before the call.
#[derive(Debug)]
pub struct PointedUnionFind {
    unionfind: petgraph::unionfind::UnionFind<usize>,
    reprs: Vec<usize>,
}

impl View for PointedUnionFind {
    type V = Seq<usize>;

    /// The visible representative of each element, indexed by element.
    closed spec fn view(&self) -> Seq<usize> {
        Seq::new(
            uf_repr(self.unionfind).len(),
            |z: int| self.reprs@[uf_repr(self.unionfind)[z] as int],
        )
    }
}

impl PointedUnionFind {
    pub closed spec fn wf(&self) -> bool {
        let inner = uf_repr(self.unionfind);
        let n = inner.len();
        &&& self.reprs@.len() == n
        &&& forall|z: int| 0 <= z < n ==> #[trigger] inner[z] < n
        &&& forall|z: int| 0 <= z < n ==> #[trigger] self.reprs@[z] < n
        &&& forall|z: int, w: int|
            0 <= z < n && 0 <= w < n && #[trigger] self.reprs@[inner[z] as int]
                == #[trigger] self.reprs@[inner[w] as int] ==> inner[z] == inner[w]
        &&& forall|z: int|
            0 <= z < n ==> inner[#[trigger] self.reprs@[inner[z] as int] as int] == inner[z]
    }

    /// Well-formedness makes every visible representative a member of its own
    /// set and a fixed point of `find`.
    pub proof fn lemma_wf_view(&self)
        requires
            self.wf(),
        ensures
            forall|z: int| 0 <= z < self@.len() ==> #[trigger] self@[z] < self@.len(),
            forall|z: int| 0 <= z < self@.len() ==> self@[#[trigger] self@[z] as int] == self@[z],
    {
        let inner = uf_repr(self.unionfind);
        let n = inner.len();
        assert forall|z: int| 0 <= z < n implies self@[#[trigger] self@[z] as int] == self@[z] by {
            let e = self.reprs@[inner[z] as int];
            assert(inner[e as int] == inner[z]);
        }
    }

    /// A partition of `0..n` into `n` singletons, each its own representative.
    pub fn new(n: usize) -> (r: Self)
        ensures
            r.wf(),
            r@.len() == n,
            forall|i: int| 0 <= i < n ==> r@[i] == i,
    {
        let unionfind = uf_new(n);
        let mut reprs: Vec<usize> = Vec::new();
        let mut i: usize = 0;
        while i < n
            invariant
                i <= n,
                reprs@.len() == i,
                forall|j: int| 0 <= j < i ==> reprs@[j] == j,
            decreases n - i,
        {
            reprs.push(i);
            i += 1;
        }
        PointedUnionFind { unionfind, reprs }
    }

    /// The visible representative of the set containing `x`.
    pub fn find(&self, x: usize) -> (r: usize)
        requires
            self.wf(),
            x < self@.len(),
        ensures
            r == self@[x as int],
            r < self@.len(),
            self@[r as int] == r,
    {
        let inner = uf_find(&self.unionfind, x);
        let r = self.reprs[inner];
        proof {
            self.lemma_wf_view();
        }
        r
    }

    /// Merges the sets containing `x` and `y`. The representative of the
    /// merged set is the representative `x` had before the call; every other
    /// set keeps its representative.
    pub fn union(&mut self, x: usize, y: usize)
        requires
            old(self).wf(),
            x < old(self)@.len(),
            y < old(self)@.len(),
        ensures
            final(self).wf(),
            final(self)@.len() == old(self)@.len(),
            forall|z: int|
                0 <= z < old(self)@.len() ==> final(self)@[z] == (
                if old(self)@[z] == old(self)@[x as int] || old(self)@[z] == old(self)@[
                    y as int] {
                    old(self)@[x as int]
                } else {
                    old(self)@[z]
                }),
    {
        let ghost iold = uf_repr(old(self).unionfind);
        let ghost rold = old(self).reprs@;
        let ghost n = iold.len();
        let inner_x = uf_find(&self.unionfind, x);
        let old_outer = self.reprs[inner_x];
        uf_union(&mut self.unionfind, x, y);
        let new_inner = uf_find(&self.unionfind, x);
        self.reprs[new_inner] = old_outer;
        proof {
            let inew = uf_repr(self.unionfind);
            let rnew = self.reprs@;
            let r0 = inew[x as int];
            // Effect on the visible representatives.
            assert forall|z: int| 0 <= z < n implies self@[z] == (
            if old(self)@[z] == old(self)@[x as int] || old(self)@[z] == old(self)@[y as int] {
                old(self)@[x as int]
            } else {
                old(self)@[z]
            }) by {
                if iold[z] == iold[x as int] || iold[z] == iold[y as int] {
                    assert(inew[z] == r0);
                    assert(rnew[r0 as int] == old_outer);
                } else {
                    assert(inew[z] == iold[z]);
                    assert(iold[z] != r0);
                    assert(rnew[iold[z] as int] == rold[iold[z] as int]);
                    // Distinct old inner representatives have distinct visible ones.
                    assert(rold[iold[z] as int] != rold[iold[x as int] as int]);
                    assert(rold[iold[z] as int] != rold[iold[y as int] as int]);
                }
            }
            // Well-formedness is preserved.
            assert forall|z: int| 0 <= z < n implies #[trigger] inew[z] < n by {
                assert(iold[x as int] < n && iold[y as int] < n);
            }
            assert forall|z: int, w: int|
                0 <= z < n && 0 <= w < n && #[trigger] rnew[inew[z] as int] == #[trigger] rnew[inew[
                    w] as int] implies inew[z] == inew[w] by {
                let merged_z = iold[z] == iold[x as int] || iold[z] == iold[y as int];
                let merged_w = iold[w] == iold[x as int] || iold[w] == iold[y as int];
                if merged_z && merged_w {
                } else if merged_z && !merged_w {
                    assert(rnew[inew[z] as int] == old_outer);
                    assert(inew[w] == iold[w] && iold[w] != r0);
                    assert(rnew[inew[w] as int] == rold[iold[w] as int]);
                    assert(rold[iold[w] as int] == rold[iold[x as int] as int]);
                    assert(iold[w] == iold[x as int]);
                } else if !merged_z && merged_w {
                    assert(rnew[inew[w] as int] == old_outer);
                    assert(inew[z] == iold[z] && iold[z] != r0);
                    assert(rnew[inew[z] as int] == rold[iold[z] as int]);
                    assert(rold[iold[z] as int] == rold[iold[x as int] as int]);
                    assert(iold[z] == iold[x as int]);
                } else {
                    assert(inew[z] == iold[z] && inew[w] == iold[w]);
                    assert(iold[z] != r0 && iold[w] != r0);
                    assert(rnew[inew[z] as int] == rold[iold[z] as int]);
                    assert(rnew[inew[w] as int] == rold[iold[w] as int]);
                }
            }
            assert forall|z: int| 0 <= z < n implies inew[#[trigger] rnew[inew[z] as int] as int]
                == inew[z] by {
                if iold[z] == iold[x as int] || iold[z] == iold[y as int] {
                    assert(inew[z] == r0);
                    assert(rnew[r0 as int] == old_outer);
                    // The old visible representative of `x` lies in `x`'s old set,
                    // hence in the merged set.
                    assert(iold[old_outer as int] == iold[x as int]);
                    assert(inew[old_outer as int] == r0);
                } else {
                    assert(inew[z] == iold[z] && iold[z] != r0);
                    let e = rold[iold[z] as int];
                    assert(rnew[iold[z] as int] == e);
                    assert(iold[e as int] == iold[z]);
                    assert(inew[e as int] == iold[e as int]);
                }
            }
        }
    }
}

} // verus!
