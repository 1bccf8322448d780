//! Persistence of connected components: a union-find pass over the edges of a
//! filtration, and the barcode layout that the homology computation produces.
use vstd::prelude::*;
use vstd::set_lib::set_int_range;
use vstd::set_lib::lemma_int_range;
use vstd::set_lib::lemma_map_size;
use vstd::relations::injective_on;
use crate::boundary::BoundaryMatrix;
use crate::complex::{
    boundary_cells, lemma_positions_in_range, of_size, positions_of_size, positions_with_len,
    simplices_view, FiltrationOrder,
};
use crate::gf2::has_rank;
use crate::reduction::{
    columns_view, lemma_low, lemma_reduce_all_len, lemma_reduction_zero_columns, low, low_of, reduce_all, reduce_columns,
    transpose, zero_columns,
};

verus! {

/// Component labels of the vertices `0..n` after joining along the first `t` edges of
/// `es`: a join of two different components relabels the whole component of the second
/// endpoint with the label of the first.
pub open spec fn component_labels(n: nat, es: Seq<(int, int)>, t: nat) -> Seq<int>
    decreases t,
{
    if t == 0 {
        Seq::new(n, |v: int| v)
    } else {
        let prev = component_labels(n, es, (t - 1) as nat);
        let a = es[t - 1].0;
        let b = es[t - 1].1;
        if prev[a] == prev[b] {
            prev
        } else {
            Seq::new(n, |w: int| if prev[w] == prev[b] { prev[a] } else { prev[w] })
        }
    }
}

/// Edge `t` joins two different components of the graph of the edges before it.
pub open spec fn joins(n: nat, es: Seq<(int, int)>, t: nat) -> bool {
    let l = component_labels(n, es, t);
    l[es[t as int].0] != l[es[t as int].1]
}

/// Positions, among the first `t` edges, of those that join two components.
pub open spec fn joining_edges(n: nat, es: Seq<(int, int)>, t: nat) -> Seq<int>
    decreases t,
{
    if t == 0 {
        Seq::empty()
    } else if joins(n, es, (t - 1) as nat) {
        joining_edges(n, es, (t - 1) as nat).push(t - 1)
    } else {
        joining_edges(n, es, (t - 1) as nat)
    }
}

/// The edges as pairs of integers.
pub open spec fn edge_pairs(edges: Seq<(usize, usize)>) -> Seq<(int, int)> {
    edges.map_values(|e: (usize, usize)| (e.0 as int, e.1 as int))
}

/// Union-find forest on `p`: `ro[x]` is the root above `x`, and the ghost heights `h`
/// grow strictly along parent links and stay below `bound`.
pub open spec fn forest(p: Seq<usize>, h: Seq<nat>, ro: Seq<int>, bound: nat) -> bool {
    &&& h.len() == p.len()
    &&& ro.len() == p.len()
    &&& forall|x: int| 0 <= x < p.len() ==> #[trigger] p[x] < p.len()
    &&& forall|x: int| 0 <= x < p.len() ==> 0 <= #[trigger] ro[x] < p.len()
    &&& forall|x: int| 0 <= x < p.len() ==> #[trigger] h[x] < bound
    &&& forall|x: int| 0 <= x < p.len() ==> p[#[trigger] ro[x]] == ro[x]
    &&& forall|x: int| 0 <= x < p.len() && #[trigger] p[x] == x ==> ro[x] == x
    &&& forall|x: int|
        0 <= x < p.len() && #[trigger] p[x] != x ==> h[p[x] as int] > h[x] && ro[p[x] as int] == ro[x]
            && h[ro[x]] > h[x]
}

/// The roots of the forest `p`.
pub open spec fn roots_of(p: Seq<usize>) -> Set<int> {
    Set::new(|x: int| 0 <= x < p.len() && p[x] == x)
}

/// Find the root above `i`, pointing every node on the way directly at it.
fn find_root(
    parent: &mut Vec<usize>,
    i: usize,
    Ghost(h): Ghost<Seq<nat>>,
    Ghost(ro): Ghost<Seq<int>>,
    Ghost(bound): Ghost<nat>,
) -> (r: usize)
    requires
        forest(old(parent)@, h, ro, bound),
        i < old(parent)@.len(),
    ensures
        forest(final(parent)@, h, ro, bound),
        final(parent)@.len() == old(parent)@.len(),
        r as int == ro[i as int],
        roots_of(final(parent)@) == roots_of(old(parent)@),
    decreases bound - h[i as int],
{
    if parent[i] != i {
        let p = parent[i];
        let r = find_root(parent, p, Ghost(h), Ghost(ro), Ghost(bound));
        let ghost mid = parent@;
        assert(mid[i as int] != i);
        parent.set(i, r);
        proof {
            let q = parent@;
            assert forall|x: int| 0 <= x < q.len() && #[trigger] q[x] != x implies h[q[x] as int]
                > h[x] && ro[q[x] as int] == ro[x] && h[ro[x]] > h[x] by {
                if x != i {
                    assert(mid[x] == q[x]);
                } else {
                    assert(ro[ro[x]] == ro[x]);
                }
            }
            assert forall|x: int| 0 <= x < q.len() implies q[#[trigger] ro[x]] == ro[x] by {
                assert(ro[x] != i);
            }
            assert(roots_of(q) =~= roots_of(mid));
        }
    }
    parent[i]
}

/// Whether `r` occurs in `v`.
fn occurs(v: &Vec<usize>, r: usize) -> (b: bool)
    ensures
        b == v@.contains(r),
{
    for k in 0..v.len()
        invariant
            forall|j: int| 0 <= j < k ==> v@[j] != r,
    {
        if v[k] == r {
            return true;
        }
    }
    false
}

/// Some vertex of `reps` shares the label of `v`.
pub open spec fn has_representative(reps: Seq<usize>, labels: Seq<int>, v: int) -> bool {
    exists|k: int| 0 <= k < reps.len() && #[trigger] labels[reps[k] as int] == labels[v]
}

/// `reps` holds one vertex of each component: every vertex `0..n` shares its label
/// with one of `reps`, and no two of `reps` share a label.
pub open spec fn represents_components(reps: Seq<usize>, labels: Seq<int>, n: nat) -> bool {
    &&& forall|v: int| 0 <= v < n ==> #[trigger] has_representative(reps, labels, v)
    &&& forall|a: int, b: int|
        0 <= a < reps.len() && 0 <= b < reps.len() && a != b ==> labels[#[trigger] reps[a] as int]
            != labels[#[trigger] reps[b] as int]
}

/// The component merges of a filtration of a graph on `n` vertices: scanning `edges`
/// in order with union-find, returns the positions of the edges that join two
/// components, and one representative vertex for each component left at the end.
pub fn merge_components(n: usize, edges: &Vec<(usize, usize)>) -> (res: (Vec<usize>, Vec<usize>))
    requires
        forall|t: int| 0 <= t < edges@.len() ==> (#[trigger] edges@[t]).0 < n && edges@[t].1 < n,
    ensures
        res.0@.map_values(|t: usize| t as int) == joining_edges(n as nat, edge_pairs(edges@), edges@.len()),
        res.1@.len() == n - res.0@.len(),
        res.1@.len() == label_set(component_labels(n as nat, edge_pairs(edges@), edges@.len()), n as nat).len(),
        res.1@.no_duplicates(),
        forall|k: int| 0 <= k < res.1@.len() ==> #[trigger] res.1@[k] < n,
        represents_components(res.1@, component_labels(n as nat, edge_pairs(edges@), edges@.len()), n as nat),
{
    let ghost es = edge_pairs(edges@);
    let ghost bound: nat = edges@.len() + 1;
    let mut parent: Vec<usize> = Vec::new();
    for v in 0..n
        invariant
            parent@.len() == v,
            forall|x: int| 0 <= x < v ==> parent@[x] == x,
    {
        parent.push(v);
    }
    let ghost mut h: Seq<nat> = Seq::new(n as nat, |x: int| 0nat);
    let ghost mut ro: Seq<int> = Seq::new(n as nat, |x: int| x);
    let mut merged: Vec<usize> = Vec::new();
    proof {
        lemma_int_range(0, n as int);
        assert(roots_of(parent@) =~= set_int_range(0, n as int));
        assert(component_labels(n as nat, es, 0) =~= ro);
    }
    let mut t: usize = 0;
    while t < edges.len()
        invariant
            es == edge_pairs(edges@),
            bound == edges@.len() + 1,
            t <= edges@.len(),
            parent@.len() == n,
            forall|k: int| 0 <= k < edges@.len() ==> (#[trigger] edges@[k]).0 < n && edges@[k].1 < n,
            forest(parent@, h, ro, bound),
            forall|x: int| 0 <= x < n ==> #[trigger] h[x] <= t,
            forall|v: int, w: int|
                0 <= v < n && 0 <= w < n ==> (#[trigger] component_labels(n as nat, es, t as nat)[v]
                    == #[trigger] component_labels(n as nat, es, t as nat)[w]) == (ro[v] == ro[w]),
            merged@.map_values(|k: usize| k as int) == joining_edges(n as nat, es, t as nat),
            roots_of(parent@).finite(),
            roots_of(parent@).len() + merged@.len() == n,
        decreases edges@.len() - t,
    {
        let (u, v) = edges[t];
        let ru = find_root(&mut parent, u, Ghost(h), Ghost(ro), Ghost(bound));
        let rv = find_root(&mut parent, v, Ghost(h), Ghost(ro), Ghost(bound));
        let ghost lab = component_labels(n as nat, es, t as nat);
        assert(es[t as int] == (u as int, v as int));
        assert(joins(n as nat, es, t as nat) == (ru != rv)) by {
            assert((lab[u as int] == lab[v as int]) == (ro[u as int] == ro[v as int]));
        }
        if ru != rv {
            // every vertex is born at filtration value zero, so the component of
            // `u` is never younger than that of `v`: the component of `v` dies.
            let ghost old_roots = roots_of(parent@);
            let ghost old_p = parent@;
            let ghost old_ro = ro;
            let ghost old_h = h;
            let ghost hv: nat = if h[ru as int] > h[rv as int] + 1 { h[ru as int] } else { (h[rv as int] + 1) as nat };
            parent.set(rv, ru);
            proof {
                h = old_h.update(ru as int, hv);
                ro = Seq::new(n as nat, |w: int| if old_ro[w] == rv { ru as int } else { old_ro[w] });
                let q = parent@;
                assert forall|x: int| 0 <= x < q.len() && #[trigger] q[x] != x implies h[q[x] as int]
                    > h[x] && ro[q[x] as int] == ro[x] && h[ro[x]] > h[x] by {
                    if x != rv {
                        assert(old_p[x] == q[x]);
                        assert(old_ro[old_p[x] as int] == old_ro[x]);
                    }
                }
                assert forall|x: int| 0 <= x < q.len() implies q[#[trigger] ro[x]] == ro[x] by {
                    assert(old_p[old_ro[x]] == old_ro[x]);
                }
                assert forall|x: int| 0 <= x < q.len() && #[trigger] q[x] == x implies ro[x] == x by {
                    assert(old_p[x] == x);
                }
                assert(roots_of(q) =~= old_roots.remove(rv as int));
                let nl = component_labels(n as nat, es, (t + 1) as nat);
                assert forall|a: int, b: int| 0 <= a < n && 0 <= b < n implies (#[trigger] nl[a]
                    == #[trigger] nl[b]) == (ro[a] == ro[b]) by {
                    assert((lab[a] == lab[v as int]) == (old_ro[a] == rv));
                    assert((lab[b] == lab[v as int]) == (old_ro[b] == rv));
                    assert((lab[a] == lab[b]) == (old_ro[a] == old_ro[b]));
                    assert((lab[a] == lab[u as int]) == (old_ro[a] == ru));
                    assert((lab[b] == lab[u as int]) == (old_ro[b] == ru));
                }
            }
            let ghost prev_merged = merged@;
            merged.push(t);
            assert(merged@.map_values(|k: usize| k as int) =~= prev_merged.map_values(|k: usize| k as int).push(t as int));
        } else {
            assert(component_labels(n as nat, es, (t + 1) as nat) == lab);
        }
        t = t + 1;
    }
    let mut roots: Vec<usize> = Vec::new();
    let mut i: usize = 0;
    while i < n
        invariant
            i <= n,
            parent@.len() == n,
            forest(parent@, h, ro, bound),
            roots_of(parent@).finite(),
            roots_of(parent@).len() + merged@.len() == n,
            roots@.no_duplicates(),
            forall|k: int| 0 <= k < roots@.len() ==> roots_of(parent@).contains(#[trigger] roots@[k] as int),
            forall|x: int| 0 <= x < i ==> roots@.contains(#[trigger] ro[x] as usize),
            es == edge_pairs(edges@),
            forall|v: int, w: int|
                0 <= v < n && 0 <= w < n ==> (#[trigger] component_labels(n as nat, es, edges@.len())[v]
                    == #[trigger] component_labels(n as nat, es, edges@.len())[w]) == (ro[v] == ro[w]),
        decreases n - i,
    {
        let ghost before = roots_of(parent@);
        let r = find_root(&mut parent, i, Ghost(h), Ghost(ro), Ghost(bound));
        let ghost prev = roots@;
        if !occurs(&roots, r) {
            roots.push(r);
        }
        proof {
            assert forall|x: int| 0 <= x < i + 1 implies roots@.contains(#[trigger] ro[x] as usize) by {
                if x < i {
                    let k = choose|k: int| 0 <= k < prev.len() && prev[k] == ro[x] as usize;
                    assert(roots@[k] == prev[k]);
                } else if prev.contains(r) {
                } else {
                    assert(roots@[prev.len() as int] == r);
                }
            }
        }
        i = i + 1;
    }
    proof {
        let rs = roots@.map_values(|x: usize| x as int);
        assert(rs.to_set() =~= roots_of(parent@)) by {
            assert forall|x: int| roots_of(parent@).contains(x) implies #[trigger] rs.to_set().contains(x) by {
                assert(ro[x] == x);
                assert(roots@.contains(ro[x] as usize));
                let k = choose|k: int| 0 <= k < roots@.len() && roots@[k] == ro[x] as usize;
                assert(rs[k] == x);
            }
            assert forall|x: int| #[trigger] rs.to_set().contains(x) implies roots_of(parent@).contains(x) by {
                let k = choose|k: int| 0 <= k < rs.len() && rs[k] == x;
                assert(roots_of(parent@).contains(roots@[k] as int));
            }
        }
        assert(rs.no_duplicates()) by {
            assert forall|a: int, b: int| 0 <= a < rs.len() && 0 <= b < rs.len() && a != b implies rs[a] != rs[b] by {
                assert(roots@[a] != roots@[b]);
            }
        }
        rs.unique_seq_to_set();
        let lab = component_labels(n as nat, es, edges@.len());
        assert(lab == component_labels(n as nat, edge_pairs(edges@), edges@.len()));
        assert forall|v: int| 0 <= v < n implies #[trigger] has_representative(roots@, lab, v) by {
            assert(roots@.contains(ro[v] as usize));
            let k = choose|k: int| 0 <= k < roots@.len() && roots@[k] == ro[v] as usize;
            assert(ro[ro[v]] == ro[v]);
            assert(lab[roots@[k] as int] == lab[v]);
        }
        assert forall|a: int, b: int| 0 <= a < roots@.len() && 0 <= b < roots@.len() && a != b implies lab[
            #[trigger] roots@[a] as int] != lab[#[trigger] roots@[b] as int] by {
            let x = roots@[a] as int;
            let y = roots@[b] as int;
            assert(roots_of(parent@).contains(x));
            assert(roots_of(parent@).contains(y));
            assert(ro[x] == x && ro[y] == y);
        }
        assert(represents_components(roots@, lab, n as nat));
        assert forall|k: int| 0 <= k < es.len() implies 0 <= (#[trigger] es[k]).0 < n && 0 <= es[k].1 < n by {
            assert(edges@[k].0 < n && edges@[k].1 < n);
        }
        lemma_components_count(n as nat, es, edges@.len());
        assert(merged@.len() == joining_edges(n as nat, es, edges@.len()).len()) by {
            assert(merged@.map_values(|u: usize| u as int).len() == merged@.len());
        }
    }
    (merged, roots)
}

/// One bar of a barcode, given by the simplices whose birth values are its ends:
/// a `birth` of `None` is filtration value zero, a `death` of `None` is infinity.
#[derive(Clone, Copy, Debug, PartialEq, Eq)]
pub struct BarShape {
    /// Position of the simplex whose birth starts the bar, if any.
    pub birth: Option<usize>,
    /// Position of the simplex whose birth ends the bar, if any.
    pub death: Option<usize>,
}

/// The bars of one homology dimension.
#[derive(Clone, Debug)]
pub struct BarcodeShape {
    /// Dimension of the homology.
    pub dim: usize,
    /// The bars.
    pub bars: Vec<BarShape>,
}

/// The edges at the positions `order` of `s`, as pairs of endpoints.
pub open spec fn ordered_edges(s: Seq<Seq<usize>>, order: Seq<usize>) -> Seq<(int, int)> {
    order.map_values(|e: usize| (s[e as int][0] as int, s[e as int][1] as int))
}

/// The bars of dimension zero: one ending at each edge that joins two components,
/// then one that never ends for each component left.
pub open spec fn h0_bars(n: nat, s: Seq<Seq<usize>>, order: Seq<usize>) -> Seq<BarShape> {
    let joined = joining_edges(n, ordered_edges(s, order), order.len());
    joined.map_values(|t: int| (BarShape { birth: None, death: Some(order[t]) })) + Seq::new(
        (n - joined.len()) as nat,
        |k: int| (BarShape { birth: None, death: None }),
    )
}

/// The reduced boundary matrix of dimension `dim`, as columns: one per simplex with
/// `dim + 1` vertices, reduced in filtration order by the standard algorithm.
pub open spec fn reduced_boundary(s: Seq<Seq<usize>>, dim: nat) -> Seq<Seq<bool>> {
    let rows = of_size(s, dim).len();
    let cols = of_size(s, dim + 1).len();
    reduce_all(transpose(boundary_cells(s, dim), rows, cols), cols)
}

/// The reduced column whose `low` is `r`, if any: the simplex that kills the feature
/// born at row `r`.
pub open spec fn killer(red: Seq<Seq<bool>>, r: int) -> Option<int> {
    if exists|c: int| 0 <= c < red.len() && #[trigger] low(red[c]) == r {
        Some(choose|c: int| 0 <= c < red.len() && #[trigger] low(red[c]) == r)
    } else {
        None
    }
}

/// The persistence bars of dimension `dim` born among the first `k` simplices with
/// `dim + 1` vertices: a simplex whose reduced boundary column is zero gives birth to
/// a feature, which dies at the simplex with `dim + 2` vertices whose reduced column
/// has its `low` at that simplex, or never.
pub open spec fn persistence_bars(s: Seq<Seq<usize>>, dim: nat, k: nat) -> Seq<BarShape>
    decreases k,
{
    if k == 0 {
        Seq::empty()
    } else {
        let prev = persistence_bars(s, dim, (k - 1) as nat);
        let c = k - 1;
        if low(reduced_boundary(s, dim)[c]) < 0 {
            prev.push(
                BarShape {
                    birth: Some(positions_of_size(s, dim + 1)[c] as usize),
                    death: match killer(reduced_boundary(s, dim + 1), c) {
                        Some(c2) => Some(positions_of_size(s, dim + 2)[c2] as usize),
                        None => None,
                    },
                },
            )
        } else {
            prev
        }
    }
}

/// All persistence bars of dimension `dim`, by birth in filtration order.
pub open spec fn dimension_bars(s: Seq<Seq<usize>>, dim: nat) -> Seq<BarShape> {
    persistence_bars(s, dim, of_size(s, dim + 1).len())
}

/// The bars born among the first `k` simplices are the zero columns among the first `k`
/// reduced columns.
proof fn lemma_bars_are_zero_columns(s: Seq<Seq<usize>>, dim: nat, k: nat)
    requires
        k <= reduced_boundary(s, dim).len(),
    ensures
        persistence_bars(s, dim, k).len() == zero_columns(reduced_boundary(s, dim).take(k as int)),
        of_size(s, dim + 2).len() == 0 ==> forall|i: int|
            0 <= i < persistence_bars(s, dim, k).len() ==> (#[trigger] persistence_bars(s, dim, k)[i]).death is None,
    decreases k,
{
    let red = reduced_boundary(s, dim);
    if k > 0 {
        lemma_bars_are_zero_columns(s, dim, (k - 1) as nat);
        assert(red.take(k as int).drop_last() =~= red.take(k - 1));
        assert(red.take(k as int).last() == red[k - 1]);
        if of_size(s, dim + 2).len() == 0 {
            let rb = reduced_boundary(s, dim + 1);
            lemma_reduce_all_len(
                transpose(boundary_cells(s, dim + 1), of_size(s, dim + 1).len(), of_size(s, dim + 2).len()),
                of_size(s, dim + 2).len(),
            );
            assert(rb.len() == 0);
            assert(killer(rb, k - 1) is None);
        }
    } else {
        assert(red.take(0) =~= Seq::<Seq<bool>>::empty());
    }
}

/// The bars of one dimension count the cycles: as many as there are simplices with
/// `dim + 1` vertices, less the GF(2) rank of their boundary matrix. Where the complex
/// has no simplex with `dim + 2` vertices, none of them ends.
pub proof fn lemma_bar_count(s: Seq<Seq<usize>>, dim: nat, r: nat)
    requires
        has_rank(boundary_cells(s, dim), of_size(s, dim + 1).len(), r),
    ensures
        dimension_bars(s, dim).len() + r == of_size(s, dim + 1).len(),
        of_size(s, dim + 2).len() == 0 ==> forall|i: int|
            0 <= i < dimension_bars(s, dim).len() ==> (#[trigger] dimension_bars(s, dim)[i]).death is None,
{
    let h = of_size(s, dim).len();
    let w = of_size(s, dim + 1).len();
    let m = boundary_cells(s, dim);
    assert forall|i: int| 0 <= i < h implies (#[trigger] m[i]).len() == w by {}
    lemma_reduction_zero_columns(m, h, w, r);
    let red = reduced_boundary(s, dim);
    lemma_reduce_all_len(transpose(m, h, w), w);
    assert(red.take(w as int) =~= red);
    lemma_bars_are_zero_columns(s, dim, w);
}

/// The persistence bars of dimension `dim` of a filtered complex, by the standard
/// reduction of the boundary matrices of dimensions `dim` and `dim + 1`.
pub fn persistence_bars_of(complex: &FiltrationOrder, dim: usize) -> (bars: Vec<BarShape>)
    requires
        dim + 1 < usize::MAX,
    ensures
        bars@ == dimension_bars(complex.view_simplices(), dim as nat),
{
    let ghost sv = complex.view_simplices();
    let a = BoundaryMatrix::from_complex(complex, dim);
    let ra = reduce_columns(&a);
    let b = BoundaryMatrix::from_complex(complex, dim + 1);
    let rb = reduce_columns(&b);
    let up1 = positions_with_len(&complex.simplices, dim + 1);
    let up2 = positions_with_len(&complex.simplices, dim + 2);
    let ghost redb = reduced_boundary(sv, dim as nat + 1);
    let ghost reda = reduced_boundary(sv, dim as nat);
    proof {
        lemma_reduce_all_len(transpose(a.cells(), a.rows as nat, a.cols as nat), a.cols as nat);
        lemma_reduce_all_len(transpose(b.cells(), b.rows as nat, b.cols as nat), b.cols as nat);
        assert(columns_view(rb@).len() == rb@.len());
        assert(columns_view(ra@).len() == ra@.len());
        assert(rb@.len() == up2@.len());
        assert forall|c: int| 0 <= c < rb@.len() implies #[trigger] rb@[c]@ == redb[c] by {
            assert(columns_view(rb@)[c] == rb@[c]@);
        }
        assert forall|c: int| 0 <= c < ra@.len() implies #[trigger] ra@[c]@ == reda[c] by {
            assert(columns_view(ra@)[c] == ra@[c]@);
        }
    }
    // the reduced column of dimension `dim + 1` that kills each simplex, if any
    let mut kill: Vec<Option<usize>> = Vec::new();
    for r in 0..up1.len()
        invariant
            kill@.len() == r,
            forall|q: int| 0 <= q < r ==> kill@[q] is None,
    {
        kill.push(None);
    }
    let mut c2: usize = 0;
    while c2 < rb.len()
        invariant
            c2 <= rb@.len(),
            kill@.len() == up1@.len(),
            up1@.len() == b.rows,
            forall|k: int| 0 <= k < rb@.len() ==> (#[trigger] rb@[k])@.len() == b.rows,
            forall|r: int|
                0 <= r < kill@.len() ==> match #[trigger] kill@[r] {
                    Some(k) => k < c2 && low(rb@[k as int]@) == r,
                    None => forall|q: int| #![trigger rb@[q]] 0 <= q < c2 ==> low(rb@[q]@) != r,
                },
        decreases rb@.len() - c2,
    {
        proof {
            lemma_low(rb@[c2 as int]@);
        }
        match low_of(&rb[c2]) {
            Some(r) => {
                kill.set(r, Some(c2));
            },
            None => {},
        }
        c2 = c2 + 1;
    }
    let mut bars: Vec<BarShape> = Vec::new();
    let mut c: usize = 0;
    while c < ra.len()
        invariant
            sv == complex.view_simplices(),
            reda == reduced_boundary(sv, dim as nat),
            redb == reduced_boundary(sv, dim as nat + 1),
            c <= ra@.len(),
            ra@.len() == of_size(sv, dim as nat + 1).len(),
            rb@.len() == redb.len(),
            rb@.len() == up2@.len(),
            kill@.len() == ra@.len(),
            forall|k: int| 0 <= k < ra@.len() ==> #[trigger] ra@[k]@ == reda[k],
            forall|k: int| 0 <= k < rb@.len() ==> #[trigger] rb@[k]@ == redb[k],
            forall|k1: int, k2: int|
                0 <= k1 < rb@.len() && 0 <= k2 < rb@.len() && k1 != k2 && low(rb@[k1]@) >= 0 ==> low(
                    #[trigger] rb@[k1]@,
                ) != low(#[trigger] rb@[k2]@),
            forall|r: int|
                0 <= r < kill@.len() ==> match #[trigger] kill@[r] {
                    Some(k) => k < rb@.len() && low(rb@[k as int]@) == r,
                    None => forall|q: int| #![trigger rb@[q]] 0 <= q < rb@.len() ==> low(rb@[q]@) != r,
                },
            up1@.len() == positions_of_size(simplices_view(complex.simplices@), dim as nat + 1).len(),
            forall|j: int|
                0 <= j < up1@.len() ==> up1@[j] as int == #[trigger] positions_of_size(
                    simplices_view(complex.simplices@),
                    dim as nat + 1,
                )[j],
            up2@.len() == positions_of_size(simplices_view(complex.simplices@), dim as nat + 2).len(),
            forall|j: int|
                0 <= j < up2@.len() ==> up2@[j] as int == #[trigger] positions_of_size(
                    simplices_view(complex.simplices@),
                    dim as nat + 2,
                )[j],
            sv == simplices_view(complex.simplices@),
            bars@ == persistence_bars(sv, dim as nat, c as nat),
        decreases ra@.len() - c,
    {
        let ghost prev = bars@;
        match low_of(&ra[c]) {
            None => {
                let death = match kill[c] {
                    Some(k) => Some(up2[k]),
                    None => None,
                };
                proof {
                    match kill@[c as int] {
                        Some(k) => {
                            assert(low(redb[k as int]) == c);
                            let k2 = choose|k2: int| 0 <= k2 < redb.len() && #[trigger] low(redb[k2]) == c;
                            assert(rb@[k2]@ == redb[k2]);
                            assert(rb@[k as int]@ == redb[k as int]);
                            assert(k2 == k);
                            assert(killer(redb, c as int) == Some(k as int));
                            assert(up2@[k as int] as int == positions_of_size(sv, dim as nat + 2)[k as int]);
                        },
                        None => {
                            assert forall|k: int| 0 <= k < redb.len() implies #[trigger] low(redb[k]) != c by {
                                assert(rb@[k]@ == redb[k]);
                            }
                            assert(killer(redb, c as int) is None);
                        },
                    }
                    assert(up1@[c as int] as int == positions_of_size(sv, dim as nat + 1)[c as int]);
                    assert(low(reda[c as int]) < 0);
                }
                bars.push(BarShape { birth: Some(up1[c]), death });
                assert(bars@ =~= persistence_bars(sv, dim as nat, (c + 1) as nat));
            },
            Some(_) => {
                assert(low(reda[c as int]) >= 0);
                assert(bars@ == persistence_bars(sv, dim as nat, (c + 1) as nat));
            },
        }
        c = c + 1;
    }
    bars
}

/// The complex is fit for the homology computation: `edge_order` lists positions of
/// edges whose endpoints are vertices of the complex.
pub open spec fn edges_fit(complex: &FiltrationOrder, edge_order: Seq<usize>) -> bool {
    forall|t: int|
        0 <= t < edge_order.len() ==> {
            let e = #[trigger] edge_order[t];
            &&& e < complex.simplices@.len()
            &&& complex.simplices@[e as int]@.len() == 2
            &&& complex.simplices@[e as int]@[0] < complex.num_vertices
            &&& complex.simplices@[e as int]@[1] < complex.num_vertices
        }
}

/// The barcodes of dimensions `0..=max_dim` of a filtered complex. `edge_order` lists
/// the positions of the edges by increasing birth value. Dimension zero comes from
/// merging components along the edges (every vertex starts a bar, which ends at the
/// edge that merges its component into another); each higher dimension pairs births
/// and deaths by the standard reduction of the boundary matrices.
pub fn compute_barcode_shapes(complex: &FiltrationOrder, edge_order: &Vec<usize>, max_dim: usize) -> (res: Vec<
    BarcodeShape,
>)
    requires
        max_dim + 2 < usize::MAX,
        edges_fit(complex, edge_order@),
        edge_order@.map_values(|e: usize| e as int).to_multiset() == positions_of_size(
            complex.view_simplices(),
            2,
        ).to_multiset(),
    ensures
        res@.len() == max_dim + 1,
        forall|d: int| 0 <= d < res@.len() ==> (#[trigger] res@[d]).dim == d,
        res@[0].bars@ == h0_bars(complex.num_vertices as nat, complex.view_simplices(), edge_order@),
        // one bar of dimension zero per vertex, each born with the vertex
        res@[0].bars@.len() == complex.num_vertices,
        forall|j: int| 0 <= j < res@[0].bars@.len() ==> (#[trigger] res@[0].bars@[j]).birth is None,
        // the finite bars of dimension zero die exactly at the edges that, scanned in
        // `edge_order`, join two vertices the edges before them do not connect
        forall|j: int|
            0 <= j < res@[0].bars@.len() && (#[trigger] res@[0].bars@[j]).death is Some ==> (exists|t: int|
                #![trigger closes_loop(complex.view_simplices(), edge_order@, t)]
                0 <= t < edge_order@.len() && res@[0].bars@[j].death == Some(edge_order@[t]) && !closes_loop(
                    complex.view_simplices(),
                    edge_order@,
                    t,
                )),
        forall|t: int|
            0 <= t < edge_order@.len() && !#[trigger] closes_loop(complex.view_simplices(), edge_order@, t) ==> (exists|
                j: int,
            |
                0 <= j < res@[0].bars@.len() && (#[trigger] res@[0].bars@[j]).death == Some(edge_order@[t])),
        forall|d: int|
            0 < d < res@.len() ==> (#[trigger] res@[d]).bars@ == dimension_bars(complex.view_simplices(), d as nat),
{
    let n = complex.num_vertices;
    let ghost sv = complex.view_simplices();
    let mut barcodes: Vec<BarcodeShape> = Vec::new();
    // dimension zero
    let mut edges: Vec<(usize, usize)> = Vec::new();
    for t in 0..edge_order.len()
        invariant
            edges_fit(complex, edge_order@),
            n == complex.num_vertices,
            edges@.len() == t,
            forall|k: int| 0 <= k < t ==> (#[trigger] edges@[k]).0 < n && edges@[k].1 < n,
            forall|k: int| 0 <= k < t ==> #[trigger] edge_pairs(edges@)[k] == ordered_edges(sv, edge_order@)[k],
            sv == complex.view_simplices(),
    {
        let s = &complex.simplices[edge_order[t]];
        let ghost prev = edges@;
        edges.push((s[0], s[1]));
        proof {
            assert forall|k: int| 0 <= k < t + 1 implies #[trigger] edge_pairs(edges@)[k] == ordered_edges(sv, edge_order@)[k] by {
                if k < t {
                    assert(edges@[k] == prev[k]);
                    assert(edge_pairs(prev)[k] == ordered_edges(sv, edge_order@)[k]);
                }
            }
        }
    }
    assert(edge_pairs(edges@) =~= ordered_edges(sv, edge_order@));
    let (merged, roots) = merge_components(n, &edges);
    let mut bars: Vec<BarShape> = Vec::new();
    let ghost joined = joining_edges(n as nat, ordered_edges(sv, edge_order@), edge_order@.len());
    assert(merged@.len() == joined.len()) by {
        assert(merged@.map_values(|t: usize| t as int).len() == merged@.len());
    }
    proof {
        lemma_joining_edges_in_range(n as nat, ordered_edges(sv, edge_order@), edge_order@.len());
    }
    for k in 0..merged.len()
        invariant
            merged@.map_values(|t: usize| t as int) == joined,
            merged@.len() == joined.len(),
            forall|j: int| 0 <= j < joined.len() ==> 0 <= #[trigger] joined[j] < edge_order@.len(),
            bars@.len() == k,
            forall|j: int|
                0 <= j < k ==> #[trigger] bars@[j] == (BarShape { birth: None, death: Some(edge_order@[joined[j]]) }),
    {
        assert(merged@[k as int] as int == joined[k as int]);
        bars.push(BarShape { birth: None, death: Some(edge_order[merged[k]]) });
    }
    for k in 0..roots.len()
        invariant
            bars@.len() == merged@.len() + k,
            merged@.len() == joined.len(),
            forall|j: int|
                0 <= j < merged@.len() ==> #[trigger] bars@[j] == (BarShape { birth: None, death: Some(edge_order@[joined[j]]) }),
            forall|j: int| merged@.len() <= j < bars@.len() ==> #[trigger] bars@[j] == (BarShape { birth: None, death: None }),
    {
        bars.push(BarShape { birth: None, death: None });
    }
    assert(bars@ =~= h0_bars(n as nat, sv, edge_order@));
    barcodes.push(BarcodeShape { dim: 0, bars });
    // higher dimensions
    let mut dim: usize = 1;
    while dim <= max_dim
        invariant
            1 <= dim <= max_dim + 1,
            max_dim + 2 < usize::MAX,
            sv == complex.view_simplices(),
            barcodes@.len() == dim,
            forall|d: int| 0 <= d < barcodes@.len() ==> (#[trigger] barcodes@[d]).dim == d,
            barcodes@[0].bars@ == h0_bars(complex.num_vertices as nat, sv, edge_order@),
            forall|d: int|
                0 < d < barcodes@.len() ==> (#[trigger] barcodes@[d]).bars@ == dimension_bars(sv, d as nat),
        decreases max_dim + 1 - dim,
    {
        let bars = persistence_bars_of(complex, dim);
        let ghost prev = barcodes@;
        barcodes.push(BarcodeShape { dim, bars });
        proof {
            assert forall|d: int| 0 < d < barcodes@.len() implies (#[trigger] barcodes@[d]).bars@ == dimension_bars(sv, d as nat) by {
                if d < prev.len() {
                    assert(barcodes@[d] == prev[d]);
                }
            }
        }
        dim = dim + 1;
    }
    proof {
        let es = ordered_edges(sv, edge_order@);
        assert forall|k: int| 0 <= k < es.len() implies 0 <= (#[trigger] es[k]).0 < n && 0 <= es[k].1 < n by {
            assert(edge_order@[k] < complex.simplices@.len());
        }
        lemma_h0_deaths(n as nat, sv, edge_order@);
        lemma_joining_edges_in_range(n as nat, es, edge_order@.len());
        lemma_components_count(n as nat, es, edge_order@.len());
    }
    barcodes
}

/// The joining edges are positions of edges, in increasing order.
pub proof fn lemma_joining_edges_in_range(n: nat, es: Seq<(int, int)>, t: nat)
    ensures
        forall|j: int| 0 <= j < joining_edges(n, es, t).len() ==> 0 <= #[trigger] joining_edges(n, es, t)[j] < t,
        joining_edges(n, es, t).len() <= t,
    decreases t,
{
    if t > 0 {
        lemma_joining_edges_in_range(n, es, (t - 1) as nat);
    }
}

/// The labels in use among the vertices `0..n`: one per component.
pub open spec fn label_set(l: Seq<int>, n: nat) -> Set<int> {
    Set::new(|x: int| exists|v: int| 0 <= v < n && l[v] == x)
}

/// There is a label for each of the `n` vertices.
pub proof fn lemma_component_labels_len(n: nat, es: Seq<(int, int)>, t: nat)
    ensures
        component_labels(n, es, t).len() == n,
    decreases t,
{
    if t > 0 {
        lemma_component_labels_len(n, es, (t - 1) as nat);
    }
}

/// Each edge that joins two components leaves one component fewer: after `t` edges
/// the graph on `n` vertices has `n` less the number of joining edges components.
pub proof fn lemma_components_count(n: nat, es: Seq<(int, int)>, t: nat)
    requires
        t <= es.len(),
        forall|k: int| 0 <= k < es.len() ==> 0 <= (#[trigger] es[k]).0 < n && 0 <= es[k].1 < n,
    ensures
        label_set(component_labels(n, es, t), n).finite(),
        label_set(component_labels(n, es, t), n).len() + joining_edges(n, es, t).len() == n,
    decreases t,
{
    let l = component_labels(n, es, t);
    if t == 0 {
        lemma_int_range(0, n as int);
        assert(label_set(l, n) =~= set_int_range(0, n as int)) by {
            assert forall|x: int| set_int_range(0, n as int).contains(x) implies #[trigger] label_set(l, n).contains(x) by {
                assert(l[x] == x);
            }
        }
    } else {
        lemma_components_count(n, es, (t - 1) as nat);
        lemma_component_labels_len(n, es, (t - 1) as nat);
        let prev = component_labels(n, es, (t - 1) as nat);
        let a = es[t - 1].0;
        let b = es[t - 1].1;
        let old_set = label_set(prev, n);
        if prev[a] != prev[b] {
            assert(joining_edges(n, es, t).len() == joining_edges(n, es, (t - 1) as nat).len() + 1);
            assert(label_set(l, n) =~= old_set.remove(prev[b])) by {
                assert forall|x: int| #[trigger] label_set(l, n).contains(x) implies old_set.remove(prev[b]).contains(x) by {
                    let v = choose|v: int| 0 <= v < n && l[v] == x;
                    if prev[v] == prev[b] {
                        assert(old_set.contains(prev[a]));
                    } else {
                        assert(old_set.contains(prev[v]));
                    }
                }
                assert forall|x: int| #[trigger] old_set.remove(prev[b]).contains(x) implies label_set(l, n).contains(x) by {
                    let v = choose|v: int| 0 <= v < n && prev[v] == x;
                    assert(l[v] == x);
                }
            }
            assert(old_set.contains(prev[b]));
        } else {
            assert(l == prev);
        }
    }
}

/// `x` and `y` are the two ends of one of the edges at the positions `ps`.
pub open spec fn adjacent(es: Seq<(int, int)>, ps: Seq<int>, x: int, y: int) -> bool {
    exists|k: int| 0 <= k < es.len() && #[trigger] ps.contains(k) && (es[k] == (x, y) || es[k] == (y, x))
}

/// `w` is a walk along the edges at the positions `ps`.
pub open spec fn is_walk(es: Seq<(int, int)>, ps: Seq<int>, w: Seq<int>) -> bool {
    &&& w.len() >= 1
    &&& forall|i: int| 0 <= i < w.len() - 1 ==> #[trigger] adjacent(es, ps, w[i], w[i + 1])
}

/// `a` and `b` are joined by a walk along the edges at the positions `ps`.
pub open spec fn connected(es: Seq<(int, int)>, ps: Seq<int>, a: int, b: int) -> bool {
    exists|w: Seq<int>| #[trigger] is_walk(es, ps, w) && w[0] == a && w.last() == b
}

/// The positions of the first `t` edges.
pub open spec fn first_edges(t: nat) -> Seq<int> {
    Seq::new(t, |k: int| k)
}

/// The endpoints of the edges are vertices `0..n`.
pub open spec fn edges_within(n: nat, es: Seq<(int, int)>) -> bool {
    forall|k: int| 0 <= k < es.len() ==> 0 <= (#[trigger] es[k]).0 < n && 0 <= es[k].1 < n
}

proof fn lemma_walk_concat(es: Seq<(int, int)>, ps: Seq<int>, w1: Seq<int>, w2: Seq<int>)
    requires
        is_walk(es, ps, w1),
        is_walk(es, ps, w2),
        w1.last() == w2[0],
    ensures
        is_walk(es, ps, w1 + w2.drop_first()),
        (w1 + w2.drop_first())[0] == w1[0],
        (w1 + w2.drop_first()).last() == w2.last(),
{
    let w = w1 + w2.drop_first();
    assert forall|i: int| 0 <= i < w.len() - 1 implies #[trigger] adjacent(es, ps, w[i], w[i + 1]) by {
        if i < w1.len() - 1 {
            assert(adjacent(es, ps, w1[i], w1[i + 1]));
        } else {
            let j = i - (w1.len() - 1);
            assert(w[i] == w2[j]);
            assert(w[i + 1] == w2[j + 1]);
            assert(adjacent(es, ps, w2[j], w2[j + 1]));
        }
    }
}

proof fn lemma_walk_reverse(es: Seq<(int, int)>, ps: Seq<int>, w: Seq<int>)
    requires
        is_walk(es, ps, w),
    ensures
        is_walk(es, ps, w.reverse()),
        w.reverse()[0] == w.last(),
        w.reverse().last() == w[0],
{
    let r = w.reverse();
    assert forall|i: int| 0 <= i < r.len() - 1 implies #[trigger] adjacent(es, ps, r[i], r[i + 1]) by {
        let j = w.len() - 2 - i;
        assert(adjacent(es, ps, w[j], w[j + 1]));
        let k = choose|k: int|
            0 <= k < es.len() && #[trigger] ps.contains(k) && (es[k] == (w[j], w[j + 1]) || es[k] == (w[j + 1], w[j]));
        assert(r[i] == w[j + 1] && r[i + 1] == w[j]);
        assert(0 <= k < es.len() && ps.contains(k) && (es[k] == (r[i], r[i + 1]) || es[k] == (r[i + 1], r[i])));
    }
}

/// A walk along some edges is a walk along any edges that include them.
proof fn lemma_walk_extend(es: Seq<(int, int)>, ps: Seq<int>, qs: Seq<int>, w: Seq<int>)
    requires
        is_walk(es, ps, w),
        forall|k: int| #[trigger] ps.contains(k) ==> qs.contains(k),
    ensures
        is_walk(es, qs, w),
{
    assert forall|i: int| 0 <= i < w.len() - 1 implies #[trigger] adjacent(es, qs, w[i], w[i + 1]) by {
        assert(adjacent(es, ps, w[i], w[i + 1]));
        let k = choose|k: int|
            0 <= k < es.len() && #[trigger] ps.contains(k) && (es[k] == (w[i], w[i + 1]) || es[k] == (w[i + 1], w[i]));
        assert(qs.contains(k));
    }
}

/// The edge at position `t` is a walk of one step along any edges that include it.
proof fn lemma_edge_walk(es: Seq<(int, int)>, ps: Seq<int>, t: int)
    requires
        0 <= t < es.len(),
        ps.contains(t),
    ensures
        is_walk(es, ps, seq![es[t].0, es[t].1]),
{
    let w = seq![es[t].0, es[t].1];
    assert(adjacent(es, ps, w[0], w[1]));
}

/// Joining never separates: vertices with one label keep sharing a label.
proof fn lemma_labels_stay_joined(n: nat, es: Seq<(int, int)>, s: nat, t: nat, x: int, y: int)
    requires
        s <= t <= es.len(),
        edges_within(n, es),
        0 <= x < n,
        0 <= y < n,
        component_labels(n, es, s)[x] == component_labels(n, es, s)[y],
    ensures
        component_labels(n, es, t)[x] == component_labels(n, es, t)[y],
    decreases t - s,
{
    if s < t {
        lemma_labels_stay_joined(n, es, s, (t - 1) as nat, x, y);
    }
}

/// After edge `k`, its two ends share a label.
proof fn lemma_edge_joins_its_ends(n: nat, es: Seq<(int, int)>, k: nat)
    requires
        k < es.len(),
        edges_within(n, es),
    ensures
        component_labels(n, es, k + 1)[es[k as int].0] == component_labels(n, es, k + 1)[es[k as int].1],
{
    assert(0 <= es[k as int].0 < n && 0 <= es[k as int].1 < n);
}

proof fn lemma_joining_edges_grow(n: nat, es: Seq<(int, int)>, t: nat)
    requires
        t < es.len(),
    ensures
        forall|k: int| #[trigger] joining_edges(n, es, t).contains(k) ==> joining_edges(n, es, t + 1).contains(k),
        joins(n, es, t) ==> joining_edges(n, es, t + 1).contains(t as int),
{
    let a = joining_edges(n, es, t);
    let b = joining_edges(n, es, t + 1);
    assert forall|k: int| #[trigger] a.contains(k) implies b.contains(k) by {
        let q = choose|q: int| 0 <= q < a.len() && a[q] == k;
        assert(b[q] == k);
    }
    if joins(n, es, t) {
        assert(b[a.len() as int] == t);
    }
}

/// Vertices with the same label after `t` edges are joined by a walk along the joining
/// edges among them.
proof fn lemma_same_label_connected(n: nat, es: Seq<(int, int)>, t: nat, a: int, b: int)
    requires
        t <= es.len(),
        edges_within(n, es),
        0 <= a < n,
        0 <= b < n,
        component_labels(n, es, t)[a] == component_labels(n, es, t)[b],
    ensures
        connected(es, joining_edges(n, es, t), a, b),
    decreases t,
{
    let js = joining_edges(n, es, t);
    if t == 0 {
        let w = seq![a];
        assert(is_walk(es, js, w));
    } else {
        let t1 = (t - 1) as nat;
        let prev = component_labels(n, es, t1);
        let pjs = joining_edges(n, es, t1);
        lemma_component_labels_len(n, es, t1);
        lemma_joining_edges_grow(n, es, t1);
        let u = es[t - 1].0;
        let v = es[t - 1].1;
        assert(0 <= u < n && 0 <= v < n);
        if prev[a] == prev[b] {
            lemma_same_label_connected(n, es, t1, a, b);
            let w = choose|w: Seq<int>| #[trigger] is_walk(es, pjs, w) && w[0] == a && w.last() == b;
            lemma_walk_extend(es, pjs, js, w);
        } else {
            assert(prev[u] != prev[v]);
            assert(joins(n, es, t1));
            lemma_edge_walk(es, js, t - 1);
            let edge = seq![u, v];
            // one of `a`, `b` was in the component of `v`, the other in that of `u`
            let (x, y) = if prev[a] == prev[v] { (a, b) } else { (b, a) };
            assert(prev[x] == prev[v]);
            assert(prev[y] == prev[u]);
            lemma_same_label_connected(n, es, t1, x, v);
            lemma_same_label_connected(n, es, t1, u, y);
            let w1 = choose|w: Seq<int>| #[trigger] is_walk(es, pjs, w) && w[0] == x && w.last() == v;
            let w2 = choose|w: Seq<int>| #[trigger] is_walk(es, pjs, w) && w[0] == u && w.last() == y;
            lemma_walk_extend(es, pjs, js, w1);
            lemma_walk_extend(es, pjs, js, w2);
            lemma_walk_reverse(es, js, edge);
            let back = edge.reverse();
            lemma_walk_concat(es, js, w1, back);
            let w3 = w1 + back.drop_first();
            lemma_walk_concat(es, js, w3, w2);
            let w4 = w3 + w2.drop_first();
            if x == a {
                assert(is_walk(es, js, w4) && w4[0] == a && w4.last() == b);
            } else {
                lemma_walk_reverse(es, js, w4);
                assert(is_walk(es, js, w4.reverse()) && w4.reverse()[0] == a && w4.reverse().last() == b);
            }
        }
    }
}

/// The ends of a walk along edges before `t` share a label after `t` edges.
proof fn lemma_connected_same_label(n: nat, es: Seq<(int, int)>, t: nat, ps: Seq<int>, w: Seq<int>)
    requires
        t <= es.len(),
        edges_within(n, es),
        forall|k: int| #[trigger] ps.contains(k) ==> k < t,
        is_walk(es, ps, w),
        forall|i: int| 0 <= i < w.len() ==> 0 <= #[trigger] w[i] < n,
    ensures
        component_labels(n, es, t)[w[0]] == component_labels(n, es, t)[w.last()],
    decreases w.len(),
{
    if w.len() > 1 {
        let w0 = w.drop_last();
        assert(is_walk(es, ps, w0)) by {
            assert forall|i: int| 0 <= i < w0.len() - 1 implies #[trigger] adjacent(es, ps, w0[i], w0[i + 1]) by {
                assert(adjacent(es, ps, w[i], w[i + 1]));
            }
        }
        lemma_connected_same_label(n, es, t, ps, w0);
        let j = w.len() - 2;
        assert(adjacent(es, ps, w[j], w[j + 1]));
        let x = w[j];
        let y = w[j + 1];
        assert(y == w.last());
        let k = choose|k: int| 0 <= k < es.len() && #[trigger] ps.contains(k) && (es[k] == (x, y) || es[k] == (y, x));
        lemma_edge_joins_its_ends(n, es, k as nat);
        lemma_labels_stay_joined(n, es, (k + 1) as nat, t, es[k].0, es[k].1);
    }
}

/// Walks along edges of `0..n` stay within `0..n`.
proof fn lemma_walk_within(n: nat, es: Seq<(int, int)>, ps: Seq<int>, w: Seq<int>)
    requires
        edges_within(n, es),
        is_walk(es, ps, w),
        0 <= w[0] < n,
    ensures
        forall|i: int| 0 <= i < w.len() ==> 0 <= #[trigger] w[i] < n,
{
    assert forall|i: int| 0 <= i < w.len() implies 0 <= #[trigger] w[i] < n by {
        if i > 0 {
            let j = i - 1;
            assert(adjacent(es, ps, w[j], w[j + 1]));
            assert(w[j + 1] == w[i]);
            let k = choose|k: int| 0 <= k < es.len() && #[trigger] ps.contains(k) && (es[k] == (w[j], w[j + 1]) || es[k] == (w[j + 1], w[j]));
            assert(0 <= es[k].0 < n && 0 <= es[k].1 < n);
        }
    }
}

/// Component labels are exactly connectivity: after `t` edges two vertices share a
/// label if and only if a walk along those edges joins them, and then already a walk
/// along the joining edges among them does.
pub proof fn lemma_labels_are_components(n: nat, es: Seq<(int, int)>, t: nat, a: int, b: int)
    requires
        t <= es.len(),
        edges_within(n, es),
        0 <= a < n,
        0 <= b < n,
    ensures
        (component_labels(n, es, t)[a] == component_labels(n, es, t)[b]) == connected(es, first_edges(t), a, b),
        (component_labels(n, es, t)[a] == component_labels(n, es, t)[b]) == connected(
            es,
            joining_edges(n, es, t),
            a,
            b,
        ),
{
    let js = joining_edges(n, es, t);
    let all = first_edges(t);
    lemma_joining_edges_in_range(n, es, t);
    assert forall|k: int| #[trigger] js.contains(k) implies all.contains(k) && k < t by {
        let q = choose|q: int| 0 <= q < js.len() && js[q] == k;
        assert(all[k] == k);
    }
    assert forall|k: int| #[trigger] all.contains(k) implies k < t by {}
    if component_labels(n, es, t)[a] == component_labels(n, es, t)[b] {
        lemma_same_label_connected(n, es, t, a, b);
        let w = choose|w: Seq<int>| #[trigger] is_walk(es, js, w) && w[0] == a && w.last() == b;
        lemma_walk_extend(es, js, all, w);
    }
    if connected(es, all, a, b) {
        let w = choose|w: Seq<int>| #[trigger] is_walk(es, all, w) && w[0] == a && w.last() == b;
        lemma_walk_within(n, es, all, w);
        lemma_connected_same_label(n, es, t, all, w);
    }
    if connected(es, js, a, b) {
        let w = choose|w: Seq<int>| #[trigger] is_walk(es, js, w) && w[0] == a && w.last() == b;
        lemma_walk_within(n, es, js, w);
        lemma_connected_same_label(n, es, t, js, w);
    }
}

/// The vertices among `0..n` that the first `t` edges connect to `u`.
pub open spec fn component_of(n: nat, es: Seq<(int, int)>, t: nat, u: int) -> Set<int> {
    Set::new(|v: int| 0 <= v < n && connected(es, first_edges(t), u, v))
}

/// The connected components of the graph on the vertices `0..n` with the first `t`
/// edges, each as its set of vertices.
pub open spec fn component_classes(n: nat, es: Seq<(int, int)>, t: nat) -> Set<Set<int>> {
    Set::new(|cls: Set<int>| exists|u: int| 0 <= u < n && cls == #[trigger] component_of(n, es, t, u))
}

/// After `t` edges there are as many connected components as vertices less joining
/// edges: one bar of dimension zero that never ends for each component.
pub proof fn lemma_component_classes_count(n: nat, es: Seq<(int, int)>, t: nat)
    requires
        t <= es.len(),
        edges_within(n, es),
    ensures
        component_classes(n, es, t).finite(),
        component_classes(n, es, t).len() + joining_edges(n, es, t).len() == n,
{
    let l = component_labels(n, es, t);
    lemma_component_labels_len(n, es, t);
    lemma_components_count(n, es, t);
    let labels = label_set(l, n);
    let g = |x: int| Set::new(|v: int| 0 <= v < n && l[v] == x);
    let classes = component_classes(n, es, t);
    assert forall|u: int| 0 <= u < n implies #[trigger] g(l[u]) == component_of(n, es, t, u) by {
        assert forall|v: int| 0 <= v < n implies (l[v] == l[u]) == connected(es, first_edges(t), u, v) by {
            lemma_labels_are_components(n, es, t, u, v);
        }
        assert(g(l[u]) =~= component_of(n, es, t, u));
    }
    assert(classes =~= labels.map(g)) by {
        assert forall|cls: Set<int>| classes.contains(cls) implies #[trigger] labels.map(g).contains(cls) by {
            let u = choose|u: int| 0 <= u < n && cls == #[trigger] component_of(n, es, t, u);
            assert(g(l[u]) == cls);
            assert(labels.contains(l[u]));
        }
        assert forall|cls: Set<int>| #[trigger] labels.map(g).contains(cls) implies classes.contains(cls) by {
            let x = choose|x: int| labels.contains(x) && g(x) == cls;
            let u = choose|u: int| 0 <= u < n && l[u] == x;
            assert(g(l[u]) == cls);
            assert(cls == component_of(n, es, t, u));
        }
    }
    assert(injective_on(g, labels)) by {
        assert forall|x: int, y: int| labels.contains(x) && labels.contains(y) && #[trigger] g(x) == #[trigger] g(y) implies x
            == y by {
            let u = choose|u: int| 0 <= u < n && l[u] == x;
            assert(g(x).contains(u));
            assert(g(y).contains(u));
        }
    }
    lemma_map_size(labels, classes, g);
}

/// The ends of edge `order[t]` are already connected by the edges `order[0..t)`.
pub open spec fn closes_loop(s: Seq<Seq<usize>>, order: Seq<usize>, t: int) -> bool {
    connected(ordered_edges(s, order), first_edges(t as nat), ordered_edges(s, order)[t].0, ordered_edges(s, order)[t].1)
}

/// The joining edges among the first `len` are those that join two components.
proof fn lemma_joining_members(n: nat, es: Seq<(int, int)>, len: nat)
    ensures
        forall|t: int| #[trigger] joining_edges(n, es, len).contains(t) <==> 0 <= t < len && joins(n, es, t as nat),
    decreases len,
{
    if len > 0 {
        lemma_joining_members(n, es, (len - 1) as nat);
        let prev = joining_edges(n, es, (len - 1) as nat);
        assert forall|t: int| #[trigger] joining_edges(n, es, len).contains(t) <==> 0 <= t < len && joins(n, es, t as nat) by {
            if joins(n, es, (len - 1) as nat) {
                let cur = prev.push(len - 1);
                assert(joining_edges(n, es, len) == cur);
                if prev.contains(t) {
                    let q = choose|q: int| 0 <= q < prev.len() && prev[q] == t;
                    assert(cur[q] == t);
                }
                if t == len - 1 {
                    assert(cur[prev.len() as int] == t);
                }
                if cur.contains(t) {
                    let q = choose|q: int| 0 <= q < cur.len() && cur[q] == t;
                    if q < prev.len() {
                        assert(prev[q] == t);
                    }
                }
            }
        }
    }
}

/// The finite bars of dimension zero die exactly at the edges that, scanned in the
/// order given, join two vertices the edges before them do not connect.
pub proof fn lemma_h0_deaths(n: nat, s: Seq<Seq<usize>>, order: Seq<usize>)
    requires
        edges_within(n, ordered_edges(s, order)),
    ensures
        forall|j: int|
            0 <= j < h0_bars(n, s, order).len() && (#[trigger] h0_bars(n, s, order)[j]).death is Some ==> (exists|t: int|
                #![trigger closes_loop(s, order, t)]
                0 <= t < order.len() && h0_bars(n, s, order)[j].death == Some(order[t]) && !closes_loop(s, order, t)),
        forall|t: int|
            0 <= t < order.len() && !#[trigger] closes_loop(s, order, t) ==> (exists|j: int|
                0 <= j < h0_bars(n, s, order).len() && (#[trigger] h0_bars(n, s, order)[j]).death == Some(order[t])),
{
    let es = ordered_edges(s, order);
    let len = order.len();
    let js = joining_edges(n, es, len);
    let bars = h0_bars(n, s, order);
    lemma_joining_members(n, es, len);
    lemma_joining_edges_in_range(n, es, len);
    assert forall|t: int| 0 <= t < len implies joins(n, es, t as nat) == !#[trigger] closes_loop(s, order, t) by {
        assert(0 <= es[t].0 < n && 0 <= es[t].1 < n);
        lemma_labels_are_components(n, es, t as nat, es[t].0, es[t].1);
    }
    assert forall|j: int| 0 <= j < bars.len() && (#[trigger] bars[j]).death is Some implies (exists|t: int|
        #![trigger closes_loop(s, order, t)]
        0 <= t < len && bars[j].death == Some(order[t]) && !closes_loop(s, order, t)) by {
        if j >= js.len() {
            assert(bars[j].death is None);
        }
        let t = js[j];
        assert(js.contains(t));
        assert(bars[j].death == Some(order[t]));
        assert(!closes_loop(s, order, t));
    }
    assert forall|t: int| 0 <= t < len && !#[trigger] closes_loop(s, order, t) implies (exists|j: int|
        0 <= j < bars.len() && (#[trigger] bars[j]).death == Some(order[t])) by {
        assert(js.contains(t));
        let j = choose|j: int| 0 <= j < js.len() && js[j] == t;
        assert(bars[j].death == Some(order[t]));
    }
}

/// The joining edges form a minimum spanning forest for the edge order: each joining
/// edge links two vertices that no earlier joining edges connect (no cycle), and the
/// two ends of every other edge are already connected by joining edges before it.
pub proof fn lemma_joining_edges_minimum_forest(n: nat, es: Seq<(int, int)>, t: nat)
    requires
        t < es.len(),
        edges_within(n, es),
    ensures
        joins(n, es, t) == !connected(es, joining_edges(n, es, t), es[t as int].0, es[t as int].1),
{
    assert(0 <= es[t as int].0 < n && 0 <= es[t as int].1 < n);
    lemma_labels_are_components(n, es, t, es[t as int].0, es[t as int].1);
}

} // verus!
