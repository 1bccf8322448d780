//! The combinatorial side of a filtered simplicial complex: its simplices in
//! filtration order, and the faces that make up their boundaries.
use vstd::prelude::*;
use vstd::relations::{sorted_by, total_ordering};
use vstd::seq_lib::lemma_sorted_unique;

verus! {

/// The simplices of a filtered complex in filtration order, each a list of vertex
/// indices, together with the number of vertices. The birth values that order the
/// filtration are kept by the caller.
#[derive(Clone, Debug)]
pub struct FiltrationOrder {
    /// Simplices in filtration order.
    pub simplices: Vec<Vec<usize>>,
    /// Number of vertices.
    pub num_vertices: usize,
}

/// The contents of a vector of simplices.
pub open spec fn simplices_view(v: Seq<Vec<usize>>) -> Seq<Seq<usize>> {
    v.map_values(|t: Vec<usize>| t@)
}

impl FiltrationOrder {
    /// The simplices as sequences of vertices.
    pub open spec fn view_simplices(&self) -> Seq<Seq<usize>> {
        simplices_view(self.simplices@)
    }
}

/// Positions in `s` of the simplices with `m` vertices, in order.
pub open spec fn positions_of_size(s: Seq<Seq<usize>>, m: nat) -> Seq<int>
    decreases s.len(),
{
    if s.len() == 0 {
        Seq::empty()
    } else if s.last().len() == m {
        positions_of_size(s.drop_last(), m).push(s.len() - 1)
    } else {
        positions_of_size(s.drop_last(), m)
    }
}

/// The simplices of `s` with `m` vertices, in order.
pub open spec fn of_size(s: Seq<Seq<usize>>, m: nat) -> Seq<Seq<usize>> {
    positions_of_size(s, m).map_values(|p: int| s[p])
}

/// Ascending order on vertex indices.
pub open spec fn ascending(a: usize, b: usize) -> bool {
    a <= b
}

/// The face of simplex `u` opposite vertex position `skip`, with its vertices in ascending order.
pub open spec fn sorted_face(u: Seq<usize>, skip: int) -> Seq<usize> {
    u.remove(skip).sort_by(|a: usize, b: usize| ascending(a, b))
}

/// The last position of `f` in `l`, or -1 when `f` does not occur.
pub open spec fn last_index_of(l: Seq<Seq<usize>>, f: Seq<usize>) -> int
    decreases l.len(),
{
    if l.len() == 0 {
        -1
    } else if l.last() == f {
        l.len() - 1
    } else {
        last_index_of(l.drop_last(), f)
    }
}

/// Whether an odd number of the first `k` faces of `u` are found at position `r` of `l`.
pub open spec fn face_parity(l: Seq<Seq<usize>>, u: Seq<usize>, r: int, k: int) -> bool
    decreases k,
{
    if k <= 0 {
        false
    } else {
        face_parity(l, u, r, k - 1) != (last_index_of(l, sorted_face(u, k - 1)) == r)
    }
}

/// The mod-2 boundary matrix of the `dim + 1`-vertex simplices of `s`: rows are the
/// `dim`-vertex simplices, columns the `dim + 1`-vertex ones, and entry `(r, c)` is set
/// when an odd number of the faces of column `c` is found at row `r` (a face that occurs
/// more than once among the rows is found at its last occurrence).
pub open spec fn boundary_cells(s: Seq<Seq<usize>>, dim: nat) -> Seq<Seq<bool>> {
    let lower = of_size(s, dim);
    let upper = of_size(s, dim + 1);
    Seq::new(
        lower.len(),
        |r: int| Seq::new(upper.len(), |c: int| face_parity(lower, upper[c], r, upper[c].len() as int)),
    )
}

/// The sequence is in ascending order.
pub open spec fn ascending_seq(s: Seq<usize>) -> bool {
    forall|i: int, j: int| 0 <= i < j < s.len() ==> #[trigger] s[i] <= #[trigger] s[j]
}

/// Sort a list of vertex indices into ascending order, by insertion.
pub(crate) fn sort_vertices(v: &mut Vec<usize>)
    ensures
        final(v)@ == old(v)@.sort_by(|a: usize, b: usize| ascending(a, b)),
{
    let mut out: Vec<usize> = Vec::new();
    let n = v.len();
    assert(v@.take(0) =~= out@);
    for i in 0..n
        invariant
            n == v@.len(),
            v@ == old(v)@,
            ascending_seq(out@),
            out@.to_multiset() == v@.take(i as int).to_multiset(),
    {
        let x = v[i];
        let mut p: usize = 0;
        while p < out.len() && out[p] <= x
            invariant
                p <= out@.len(),
                forall|q: int| 0 <= q < p ==> out@[q] <= x,
                ascending_seq(out@),
                out@.to_multiset() == v@.take(i as int).to_multiset(),
                i < n,
                n == v@.len(),
                v@ == old(v)@,
                x == v@[i as int],
            decreases out@.len() - p,
        {
            p = p + 1;
        }
        assert(p == out@.len() || out@[p as int] > x);
        let ghost before = out@;
        out.insert(p, x);
        proof {
            broadcast use vstd::seq_lib::group_to_multiset_ensures;
            assert(v@.take(i + 1) =~= v@.take(i as int).push(x));
            assert(out@.to_multiset() =~= before.to_multiset().insert(x));
            assert(v@.take(i as int).push(x).to_multiset() =~= v@.take(i as int).to_multiset().insert(x));
            assert(out@ == before.insert(p as int, x));
            assert(ascending_seq(before));
            assert forall|q: int| p <= q < before.len() implies before[q] > x by {
                assert(before[p as int] > x);
                if q > p {
                    assert(ascending(before[p as int], before[q]));
                    assert(before[p as int] <= before[q]);
                }
            }
            assert forall|a: int, b: int| 0 <= a < b < out@.len() implies ascending(out@[a], out@[b]) by {
                if b < p {
                    assert(out@[a] == before[a] && out@[b] == before[b]);
                    assert(ascending(before[a], before[b]));
                } else if b == p {
                    assert(out@[a] == before[a] && out@[b] == x);
                } else if a < p {
                    assert(out@[a] == before[a] && out@[b] == before[b - 1]);
                } else if a == p {
                    assert(out@[a] == x && out@[b] == before[b - 1]);
                } else {
                    assert(out@[a] == before[a - 1] && out@[b] == before[b - 1]);
                    assert(ascending(before[a - 1], before[b - 1]));
                }
            }
            assert(ascending_seq(out@));
        }
    }
    proof {
        assert(v@.take(n as int) =~= v@);
        assert(sorted_by(out@, |a: usize, b: usize| ascending(a, b))) by {
            assert forall|a: int, b: int| 0 <= a < b < out@.len() implies (|a: usize, b: usize| ascending(a, b))(out@[a], out@[b]) by {
                assert(out@[a] <= out@[b]);
            }
        }
        assert(total_ordering(|a: usize, b: usize| ascending(a, b)));
        v@.lemma_sort_by_ensures(|a: usize, b: usize| ascending(a, b));
        lemma_sorted_unique(out@, v@.sort_by(|a: usize, b: usize| ascending(a, b)), |a: usize, b: usize| ascending(a, b));
    }
    *v = out;
}

/// Positions of the simplices with `m` vertices.
pub fn positions_with_len(simplices: &Vec<Vec<usize>>, m: usize) -> (out: Vec<usize>)
    ensures
        out@.len() == positions_of_size(simplices_view(simplices@), m as nat).len(),
        forall|i: int|
            0 <= i < out@.len() ==> out@[i] as int == #[trigger] positions_of_size(
                simplices_view(simplices@),
                m as nat,
            )[i],
{
    let ghost s = simplices_view(simplices@);
    let mut out: Vec<usize> = Vec::new();
    let mut i: usize = 0;
    while i < simplices.len()
        invariant
            i <= simplices@.len(),
            s == simplices_view(simplices@),
            out@.len() == positions_of_size(s.take(i as int), m as nat).len(),
            forall|k: int|
                0 <= k < out@.len() ==> out@[k] as int == #[trigger] positions_of_size(
                    s.take(i as int),
                    m as nat,
                )[k],
        decreases simplices@.len() - i,
    {
        assert(s.take(i + 1).drop_last() =~= s.take(i as int));
        assert(s.take(i + 1).last() == simplices@[i as int]@);
        let ghost prev = out@;
        if simplices[i].len() == m {
            out.push(i);
            assert(positions_of_size(s.take(i + 1), m as nat) == positions_of_size(
                s.take(i as int),
                m as nat,
            ).push(i as int));
            assert forall|k: int| 0 <= k < out@.len() implies out@[k] as int
                == #[trigger] positions_of_size(s.take(i + 1), m as nat)[k] by {
                if k < prev.len() {
                    assert(out@[k] == prev[k]);
                    assert(prev[k] as int == positions_of_size(s.take(i as int), m as nat)[k]);
                }
            }
        } else {
            assert(positions_of_size(s.take(i + 1), m as nat) == positions_of_size(
                s.take(i as int),
                m as nat,
            ));
        }
        i = i + 1;
    }
    assert(s.take(simplices@.len() as int) =~= s);
    out
}

/// Whether two vertex lists are equal.
fn same_vertices(a: &Vec<usize>, b: &Vec<usize>) -> (r: bool)
    ensures
        r == (a@ == b@),
{
    if a.len() != b.len() {
        return false;
    }
    for i in 0..a.len()
        invariant
            a@.len() == b@.len(),
            forall|k: int| 0 <= k < i ==> a@[k] == b@[k],
    {
        if a[i] != b[i] {
            return false;
        }
    }
    assert(a@ =~= b@);
    true
}

/// The last position among the `m`-vertex simplices at which `face` occurs.
pub fn last_position_of(simplices: &Vec<Vec<usize>>, lower: &Vec<usize>, m: usize, face: &Vec<usize>) -> (r: Option<usize>)
    requires
        lower@.len() == positions_of_size(simplices_view(simplices@), m as nat).len(),
        forall|i: int|
            0 <= i < lower@.len() ==> lower@[i] as int == #[trigger] positions_of_size(
                simplices_view(simplices@),
                m as nat,
            )[i],
    ensures
        ({
            let idx = last_index_of(of_size(simplices_view(simplices@), m as nat), face@);
            &&& idx < 0 ==> r is None
            &&& idx >= 0 ==> r == Some(idx as usize)
        }),
{
    let ghost l = of_size(simplices_view(simplices@), m as nat);
    proof {
        let sv = simplices_view(simplices@);
        lemma_positions_in_range(sv, m as nat);
        assert forall|k: int| 0 <= k < lower@.len() implies #[trigger] l[k] == simplices@[lower@[k] as int]@ by {
            assert(lower@[k] as int == positions_of_size(sv, m as nat)[k]);
        }
        assert forall|k: int| 0 <= k < lower@.len() implies lower@[k] < simplices@.len() by {
            assert(lower@[k] as int == positions_of_size(sv, m as nat)[k]);
        }
    }
    let mut i = lower.len();
    assert(l.take(i as int) =~= l);
    while i > 0
        invariant
            i <= lower@.len(),
            l.len() == lower@.len(),
            l == of_size(simplices_view(simplices@), m as nat),
            forall|k: int| 0 <= k < lower@.len() ==> lower@[k] < simplices@.len(),
            forall|k: int| 0 <= k < lower@.len() ==> #[trigger] l[k] == simplices@[lower@[k] as int]@,
            last_index_of(l, face@) == last_index_of(l.take(i as int), face@),
        decreases i,
    {
        assert(l.take(i as int).drop_last() =~= l.take(i - 1));
        if same_vertices(&simplices[lower[i - 1]], face) {
            return Some(i - 1);
        }
        i = i - 1;
    }
    None
}

/// Every position of an `m`-vertex simplex is a position of `s` holding such a simplex.
pub proof fn lemma_positions_in_range(s: Seq<Seq<usize>>, m: nat)
    ensures
        forall|i: int|
            0 <= i < positions_of_size(s, m).len() ==> 0 <= #[trigger] positions_of_size(s, m)[i] < s.len()
                && s[positions_of_size(s, m)[i]].len() == m,
        forall|i: int, j: int|
            0 <= i < j < positions_of_size(s, m).len() ==> #[trigger] positions_of_size(s, m)[i]
                < #[trigger] positions_of_size(s, m)[j],
    decreases s.len(),
{
    if s.len() > 0 {
        let prev = s.drop_last();
        lemma_positions_in_range(prev, m);
        assert forall|i: int| 0 <= i < positions_of_size(prev, m).len() implies s[positions_of_size(
            prev,
            m,
        )[i]] == prev[positions_of_size(prev, m)[i]] by {}
    }
}

/// `last_index_of` is -1 or a position holding `f`.
pub proof fn lemma_last_index_of(l: Seq<Seq<usize>>, f: Seq<usize>)
    ensures
        -1 <= last_index_of(l, f) < l.len(),
        last_index_of(l, f) >= 0 ==> l[last_index_of(l, f)] == f,
    decreases l.len(),
{
    if l.len() > 0 {
        lemma_last_index_of(l.drop_last(), f);
    }
}

/// The vertices of `v` strictly increase.
pub open spec fn strictly_increasing(v: Seq<usize>) -> bool {
    forall|i: int, j: int| 0 <= i < j < v.len() ==> #[trigger] v[i] < #[trigger] v[j]
}

/// A strictly increasing list of vertices is its own sorted form, also with one vertex
/// left out.
proof fn lemma_sorted_face_of_increasing(u: Seq<usize>, skip: int)
    requires
        strictly_increasing(u),
        0 <= skip < u.len(),
    ensures
        sorted_face(u, skip) == u.remove(skip),
{
    let f = u.remove(skip);
    assert(sorted_by(f, |a: usize, b: usize| ascending(a, b))) by {
        assert forall|a: int, b: int| 0 <= a < b < f.len() implies (|a: usize, b: usize| ascending(a, b))(f[a], f[b]) by {
            let a2 = if a < skip { a } else { a + 1 };
            let b2 = if b < skip { b } else { b + 1 };
            assert(f[a] == u[a2] && f[b] == u[b2]);
            assert(u[a2] < u[b2]);
        }
    }
    assert(total_ordering(|a: usize, b: usize| ascending(a, b)));
    f.lemma_sort_by_ensures(|a: usize, b: usize| ascending(a, b));
    lemma_sorted_unique(f, f.sort_by(|a: usize, b: usize| ascending(a, b)), |a: usize, b: usize| ascending(a, b));
}

/// Leaving out different vertices of a strictly increasing list gives different faces.
proof fn lemma_faces_differ(u: Seq<usize>, s1: int, s2: int)
    requires
        strictly_increasing(u),
        0 <= s1 < s2 < u.len(),
    ensures
        u.remove(s1) != u.remove(s2),
{
    assert(u.remove(s1)[s1] == u[s1 + 1]);
    assert(u.remove(s2)[s1] == u[s1]);
    assert(u[s1] < u[s1 + 1]);
}

/// In a list without repeats, the last position of an entry is its only position.
proof fn lemma_last_index_of_distinct(l: Seq<Seq<usize>>, r: int)
    requires
        0 <= r < l.len(),
        forall|a: int, b: int| 0 <= a < l.len() && 0 <= b < l.len() && a != b ==> l[a] != l[b],
    ensures
        forall|f: Seq<usize>| (last_index_of(l, f) == r) == (l[r] == f),
    decreases l.len(),
{
    assert forall|f: Seq<usize>| (last_index_of(l, f) == r) == (l[r] == f) by {
        lemma_last_index_of(l, f);
        if r < l.len() - 1 {
            let w = l.drop_last();
            assert forall|a: int, b: int| 0 <= a < w.len() && 0 <= b < w.len() && a != b implies w[a] != w[b] by {
                assert(w[a] == l[a] && w[b] == l[b]);
            }
            lemma_last_index_of_distinct(w, r);
            assert((last_index_of(w, f) == r) == (w[r] == f));
            assert(w[r] == l[r]);
            if l.last() == f {
                assert(l[r] != l[l.len() - 1]);
            }
        } else {
            lemma_last_index_of(l.drop_last(), f);
        }
    }
}

/// The mod-2 face count is a plain membership test when at most one face matches.
proof fn lemma_face_parity_single(l: Seq<Seq<usize>>, u: Seq<usize>, r: int, k: int)
    requires
        0 <= k <= u.len(),
        strictly_increasing(u),
        0 <= r < l.len(),
        forall|a: int, b: int| 0 <= a < l.len() && 0 <= b < l.len() && a != b ==> l[a] != l[b],
        forall|sk: int| 0 <= sk < u.len() ==> sorted_face(u, sk) == u.remove(sk),
    ensures
        face_parity(l, u, r, k) == exists|sk: int| 0 <= sk < k && #[trigger] u.remove(sk) == l[r],
    decreases k,
{
    lemma_last_index_of_distinct(l, r);
    if k > 0 {
        lemma_face_parity_single(l, u, r, k - 1);
        if u.remove(k - 1) == l[r] {
            assert forall|sk: int| 0 <= sk < k - 1 implies #[trigger] u.remove(sk) != l[r] by {
                lemma_faces_differ(u, sk, k - 1);
            }
        }
    }
}

/// For simplices listed with strictly increasing vertices, the lower ones without
/// repeats, the boundary matrix has entry `(r, c)` set exactly when row simplex `r`
/// is column simplex `c` with one vertex left out.
pub proof fn lemma_boundary_entries_are_faces(s: Seq<Seq<usize>>, dim: nat, r: int, c: int)
    requires
        forall|k: int| 0 <= k < s.len() ==> strictly_increasing(#[trigger] s[k]),
        forall|a: int, b: int|
            0 <= a < of_size(s, dim).len() && 0 <= b < of_size(s, dim).len() && a != b ==> of_size(s, dim)[a]
                != of_size(s, dim)[b],
        0 <= r < of_size(s, dim).len(),
        0 <= c < of_size(s, dim + 1).len(),
    ensures
        boundary_cells(s, dim)[r][c] == exists|sk: int|
            0 <= sk < of_size(s, dim + 1)[c].len() && #[trigger] of_size(s, dim + 1)[c].remove(sk) == of_size(
                s,
                dim,
            )[r],
{
    let u = of_size(s, dim + 1)[c];
    lemma_positions_in_range(s, dim + 1);
    assert(u == s[positions_of_size(s, dim + 1)[c]]);
    assert forall|sk: int| 0 <= sk < u.len() implies sorted_face(u, sk) == u.remove(sk) by {
        lemma_sorted_face_of_increasing(u, sk);
    }
    lemma_face_parity_single(of_size(s, dim), u, r, u.len() as int);
}


/// `a` and `b` hold the same vertices, each as often.
pub open spec fn same_vertex_counts(a: Seq<usize>, b: Seq<usize>) -> bool {
    a.to_multiset() == b.to_multiset()
}

/// `l` holds the vertices of `u` but one, in whatever order either lists them.
pub open spec fn vertex_face(l: Seq<usize>, u: Seq<usize>) -> bool {
    exists|sk: int| 0 <= sk < u.len() && #[trigger] same_vertex_counts(u.remove(sk), l)
}

/// A sorted face holds the vertices of the face, in ascending order.
proof fn lemma_sorted_face_facts(u: Seq<usize>, skip: int)
    ensures
        same_vertex_counts(sorted_face(u, skip), u.remove(skip)),
        sorted_by(sorted_face(u, skip), |a: usize, b: usize| ascending(a, b)),
{
    assert(total_ordering(|a: usize, b: usize| ascending(a, b)));
    u.remove(skip).lemma_sort_by_ensures(|a: usize, b: usize| ascending(a, b));
}

/// Against a row listed in ascending order, a sorted face matches exactly when it holds
/// the same vertices.
proof fn lemma_sorted_face_matches(u: Seq<usize>, skip: int, l: Seq<usize>)
    requires
        ascending_seq(l),
    ensures
        (sorted_face(u, skip) == l) == same_vertex_counts(u.remove(skip), l),
{
    lemma_sorted_face_facts(u, skip);
    let leq = |a: usize, b: usize| ascending(a, b);
    assert(total_ordering(leq));
    assert(sorted_by(l, leq)) by {
        assert forall|a: int, b: int| 0 <= a < b < l.len() implies leq(l[a], l[b]) by {}
    }
    if same_vertex_counts(u.remove(skip), l) {
        lemma_sorted_unique(sorted_face(u, skip), l, leq);
    }
}

/// Leaving out different vertices of a list without repeats gives faces with different
/// vertices.
proof fn lemma_faces_differ_as_sets(u: Seq<usize>, s1: int, s2: int)
    requires
        u.no_duplicates(),
        0 <= s1 < u.len(),
        0 <= s2 < u.len(),
        s1 != s2,
    ensures
        !same_vertex_counts(u.remove(s1), u.remove(s2)),
{
    u.to_multiset_ensures();
    u.lemma_multiset_has_no_duplicates();
    assert(u.to_multiset().contains(u[s1]));
    assert(u.remove(s1).to_multiset() =~= u.to_multiset().remove(u[s1]));
    assert(u.remove(s2).to_multiset() =~= u.to_multiset().remove(u[s2]));
    assert(u.remove(s1).to_multiset().count(u[s1]) == 0);
    assert(u.remove(s2).to_multiset().count(u[s1]) == 1);
}

/// The mod-2 face count is a membership test when the faces are all different.
proof fn lemma_face_parity_distinct(l: Seq<Seq<usize>>, u: Seq<usize>, r: int, k: int)
    requires
        0 <= k <= u.len(),
        0 <= r < l.len(),
        l.no_duplicates(),
        forall|s1: int, s2: int|
            0 <= s1 < u.len() && 0 <= s2 < u.len() && s1 != s2 ==> sorted_face(u, s1) != sorted_face(u, s2),
    ensures
        face_parity(l, u, r, k) == exists|sk: int| 0 <= sk < k && #[trigger] sorted_face(u, sk) == l[r],
    decreases k,
{
    lemma_last_index_of_distinct(l, r);
    if k > 0 {
        lemma_face_parity_distinct(l, u, r, k - 1);
        if sorted_face(u, k - 1) == l[r] {
            assert forall|sk: int| 0 <= sk < k - 1 implies #[trigger] sorted_face(u, sk) != l[r] by {}
        }
    }
}

/// For rows listed in ascending order without repeats, and a column simplex without a
/// repeated vertex listed in any order, the boundary matrix has entry `(r, c)` set
/// exactly when row simplex `r` holds the vertices of column simplex `c` but one.
pub proof fn lemma_boundary_entries_are_vertex_faces(s: Seq<Seq<usize>>, dim: nat, r: int, c: int)
    requires
        of_size(s, dim).no_duplicates(),
        0 <= r < of_size(s, dim).len(),
        0 <= c < of_size(s, dim + 1).len(),
        ascending_seq(of_size(s, dim)[r]),
        of_size(s, dim + 1)[c].no_duplicates(),
    ensures
        boundary_cells(s, dim)[r][c] == vertex_face(of_size(s, dim)[r], of_size(s, dim + 1)[c]),
{
    let u = of_size(s, dim + 1)[c];
    let l = of_size(s, dim)[r];
    assert forall|s1: int, s2: int| 0 <= s1 < u.len() && 0 <= s2 < u.len() && s1 != s2 implies sorted_face(u, s1)
        != sorted_face(u, s2) by {
        lemma_faces_differ_as_sets(u, s1, s2);
        lemma_sorted_face_facts(u, s1);
        lemma_sorted_face_facts(u, s2);
    }
    lemma_face_parity_distinct(of_size(s, dim), u, r, u.len() as int);
    assert forall|sk: int| 0 <= sk < u.len() implies (sorted_face(u, sk) == l) == #[trigger] same_vertex_counts(u.remove(sk), l) by {
        lemma_sorted_face_matches(u, sk, l);
    }
    assert(boundary_cells(s, dim)[r][c] == face_parity(of_size(s, dim), u, r, u.len() as int));
    if vertex_face(l, u) {
        let sk = choose|sk: int| 0 <= sk < u.len() && #[trigger] same_vertex_counts(u.remove(sk), l);
        assert(sorted_face(u, sk) == l);
    }
    if face_parity(of_size(s, dim), u, r, u.len() as int) {
        let sk = choose|sk: int| 0 <= sk < u.len() && #[trigger] sorted_face(u, sk) == l;
        assert(same_vertex_counts(u.remove(sk), l));
    }
}

/// The number of `k < n` with `a[r][k]` and `b[k][c]`: entry `(r, c)` of the product of
/// `a` and `b` counted over the integers, up to its `n`-th term.
pub open spec fn product_count(a: Seq<Seq<bool>>, b: Seq<Seq<bool>>, r: int, c: int, n: nat) -> nat
    decreases n,
{
    if n == 0 {
        0
    } else {
        product_count(a, b, r, c, (n - 1) as nat) + if a[r][n - 1] && b[n - 1][c] {
            1nat
        } else {
            0nat
        }
    }
}

/// `w` without the vertices at positions `a` and `b`, for `a < b`.
pub open spec fn remove_two(w: Seq<usize>, a: int, b: int) -> Seq<usize> {
    w.remove(b).remove(a)
}

/// Every position holding an `m`-vertex simplex is listed.
proof fn lemma_positions_complete(s: Seq<Seq<usize>>, m: nat)
    ensures
        forall|p: int|
            0 <= p < s.len() && s[p].len() == m ==> exists|i: int|
                0 <= i < positions_of_size(s, m).len() && #[trigger] positions_of_size(s, m)[i] == p,
    decreases s.len(),
{
    if s.len() > 0 {
        let prev = s.drop_last();
        lemma_positions_complete(prev, m);
        let ps = positions_of_size(s, m);
        assert forall|p: int| 0 <= p < s.len() && s[p].len() == m implies exists|i: int|
            0 <= i < ps.len() && #[trigger] ps[i] == p by {
            if p == s.len() - 1 {
                assert(ps[ps.len() - 1] == p);
            } else {
                assert(prev[p] == s[p]);
                let i = choose|i: int|
                    0 <= i < positions_of_size(prev, m).len() && #[trigger] positions_of_size(prev, m)[i] == p;
                assert(ps[i] == p);
            }
        }
    }
}

/// Without repeats among the simplices, none among those of one size either.
proof fn lemma_of_size_distinct(s: Seq<Seq<usize>>, m: nat)
    requires
        forall|a: int, b: int| 0 <= a < s.len() && 0 <= b < s.len() && a != b ==> s[a] != s[b],
    ensures
        forall|i: int, j: int|
            0 <= i < of_size(s, m).len() && 0 <= j < of_size(s, m).len() && i != j ==> of_size(s, m)[i]
                != of_size(s, m)[j],
{
    lemma_positions_in_range(s, m);
    let ps = positions_of_size(s, m);
    assert forall|i: int, j: int|
        0 <= i < of_size(s, m).len() && 0 <= j < of_size(s, m).len() && i != j implies of_size(s, m)[i]
            != of_size(s, m)[j] by {
        assert(of_size(s, m)[i] == s[ps[i]] && of_size(s, m)[j] == s[ps[j]]);
        if i < j {
            assert(ps[i] < ps[j]);
        } else {
            assert(ps[j] < ps[i]);
        }
    }
}

proof fn lemma_remove_two_index(w: Seq<usize>, a: int, b: int)
    requires
        0 <= a < b < w.len(),
    ensures
        remove_two(w, a, b).len() == w.len() - 2,
        forall|i: int|
            0 <= i < w.len() - 2 ==> #[trigger] remove_two(w, a, b)[i] == if i < a {
                w[i]
            } else if i < b - 1 {
                w[i + 1]
            } else {
                w[i + 2]
            },
{
}

/// A face of a face of `w` is `w` without two of its vertices.
proof fn lemma_face_of_face(w: Seq<usize>, x: int, y: int)
    requires
        0 <= x < w.len(),
        0 <= y < w.len() - 1,
    ensures
        w.remove(x).remove(y) == if y < x {
            remove_two(w, y, x)
        } else {
            remove_two(w, x, y + 1)
        },
{
    if y < x {
        lemma_remove_two_index(w, y, x);
        assert(w.remove(x).remove(y) =~= remove_two(w, y, x));
    } else {
        lemma_remove_two_index(w, x, y + 1);
        assert(w.remove(x).remove(y) =~= remove_two(w, x, y + 1));
    }
}

/// Leaving out different pairs of vertices of a strictly increasing list gives
/// different lists.
proof fn lemma_remove_two_unique(w: Seq<usize>, a: int, b: int, a2: int, b2: int)
    requires
        strictly_increasing(w),
        0 <= a < b < w.len(),
        0 <= a2 < b2 < w.len(),
        remove_two(w, a, b) == remove_two(w, a2, b2),
    ensures
        a == a2 && b == b2,
{
    lemma_remove_two_index(w, a, b);
    lemma_remove_two_index(w, a2, b2);
    let l = remove_two(w, a, b);
    let l2 = remove_two(w, a2, b2);
    if a < a2 {
        assert(l[a] == l2[a]);
        assert(w[a] < w[a + 1] && w[a] < w[a + 2]);
    } else if a2 < a {
        assert(l[a2] == l2[a2]);
        assert(w[a2] < w[a2 + 1] && w[a2] < w[a2 + 2]);
    } else if b < b2 {
        assert(l[b - 1] == l2[b - 1]);
        assert(w[b] < w[b + 1]);
    } else if b2 < b {
        assert(l[b2 - 1] == l2[b2 - 1]);
        assert(w[b2] < w[b2 + 1]);
    }
}

/// Counting the `k < n` where the product term is set, when it is set at `k1` and `k2`
/// only.
proof fn lemma_product_count_pair(a: Seq<Seq<bool>>, b: Seq<Seq<bool>>, r: int, c: int, n: nat, k1: int, k2: int)
    requires
        k1 != k2,
        forall|k: int| 0 <= k < n ==> (#[trigger] a[r][k] && b[k][c]) == (k == k1 || k == k2),
    ensures
        product_count(a, b, r, c, n) == (if 0 <= k1 < n {
            1int
        } else {
            0int
        }) + (if 0 <= k2 < n {
            1int
        } else {
            0int
        }),
    decreases n,
{
    if n > 0 {
        lemma_product_count_pair(a, b, r, c, (n - 1) as nat, k1, k2);
        assert((a[r][n - 1] && b[n - 1][c]) == (n - 1 == k1 || n - 1 == k2));
    }
}

/// The boundary of a boundary is zero: in a complex listed with strictly increasing
/// vertices, without repeats and closed under leaving out one vertex of a simplex
/// with two or more, the product of the boundary matrix of the `dim + 1`-vertex
/// simplices with that of the `dim + 2`-vertex ones is zero mod 2. Each entry counts
/// the `dim + 1`-vertex simplices between a `dim`-vertex and a `dim + 2`-vertex one,
/// and there are none or two.
pub proof fn lemma_boundary_of_boundary(s: Seq<Seq<usize>>, dim: nat, r: int, c: int)
    requires
        forall|k: int| 0 <= k < s.len() ==> strictly_increasing(#[trigger] s[k]),
        forall|a: int, b: int| 0 <= a < s.len() && 0 <= b < s.len() && a != b ==> s[a] != s[b],
        forall|k: int, sk: int|
            0 <= k < s.len() && 2 <= s[k].len() && 0 <= sk < s[k].len() ==> s.contains(
                #[trigger] s[k].remove(sk),
            ),
        0 <= r < of_size(s, dim).len(),
        0 <= c < of_size(s, dim + 2).len(),
    ensures
        product_count(boundary_cells(s, dim), boundary_cells(s, dim + 1), r, c, of_size(s, dim + 1).len())
            % 2 == 0,
{
    let lo = of_size(s, dim);
    let up = of_size(s, dim + 1);
    let top = of_size(s, dim + 2);
    let a = boundary_cells(s, dim);
    let b = boundary_cells(s, dim + 1);
    let l = lo[r];
    let w = top[c];
    lemma_positions_in_range(s, dim);
    lemma_positions_in_range(s, dim + 1);
    lemma_positions_in_range(s, dim + 2);
    lemma_positions_complete(s, dim + 1);
    lemma_of_size_distinct(s, dim);
    lemma_of_size_distinct(s, dim + 1);
    let pw = positions_of_size(s, dim + 2)[c];
    assert(w == s[pw]);
    assert(strictly_increasing(w) && w.len() == dim + 2);
    assert forall|k: int| 0 <= k < up.len() implies #[trigger] a[r][k] == exists|sk: int|
        0 <= sk < up[k].len() && #[trigger] up[k].remove(sk) == l by {
        lemma_boundary_entries_are_faces(s, dim, r, k);
    }
    assert forall|k: int| 0 <= k < up.len() implies #[trigger] b[k][c] == exists|sk: int|
        0 <= sk < w.len() && #[trigger] w.remove(sk) == up[k] by {
        lemma_boundary_entries_are_faces(s, dim + 1, k, c);
    }
    assert forall|k: int| 0 <= k < up.len() implies up[k].len() == dim + 1 by {
        assert(up[k] == s[positions_of_size(s, dim + 1)[k]]);
    }
    if exists|k: int| 0 <= k < up.len() && #[trigger] a[r][k] && b[k][c] {
        let k0 = choose|k: int| 0 <= k < up.len() && #[trigger] a[r][k] && b[k][c];
        let x = choose|sk: int| 0 <= sk < w.len() && #[trigger] w.remove(sk) == up[k0];
        let y = choose|sk: int| 0 <= sk < up[k0].len() && #[trigger] up[k0].remove(sk) == l;
        lemma_face_of_face(w, x, y);
        let (p, q) = if y < x {
            (y, x)
        } else {
            (x, y + 1)
        };
        assert(l == remove_two(w, p, q));
        // the two faces of `w` between `l` and `w`, and where they stand
        let fp = w.remove(p);
        let fq = w.remove(q);
        lemma_faces_differ(w, p, q);
        assert(s.contains(fp));
        assert(s.contains(fq));
        let sp = choose|i: int| 0 <= i < s.len() && s[i] == fp;
        let sq = choose|i: int| 0 <= i < s.len() && s[i] == fq;
        let kp = choose|i: int|
            0 <= i < positions_of_size(s, dim + 1).len() && #[trigger] positions_of_size(s, dim + 1)[i] == sp;
        let kq = choose|i: int|
            0 <= i < positions_of_size(s, dim + 1).len() && #[trigger] positions_of_size(s, dim + 1)[i] == sq;
        assert(up[kp] == fp && up[kq] == fq);
        assert forall|k: int| 0 <= k < up.len() implies (#[trigger] a[r][k] && b[k][c]) == (k == kp || k == kq) by {
            if a[r][k] && b[k][c] {
                let x2 = choose|sk: int| 0 <= sk < w.len() && #[trigger] w.remove(sk) == up[k];
                let y2 = choose|sk: int| 0 <= sk < up[k].len() && #[trigger] up[k].remove(sk) == l;
                lemma_face_of_face(w, x2, y2);
                if y2 < x2 {
                    lemma_remove_two_unique(w, p, q, y2, x2);
                } else {
                    lemma_remove_two_unique(w, p, q, x2, y2 + 1);
                }
                assert(up[k] == fp || up[k] == fq);
            }
            if k == kp {
                lemma_face_of_face(w, p, q - 1);
                assert(up[k].remove(q - 1) == l);
                assert(w.remove(p) == up[k]);
            }
            if k == kq {
                lemma_face_of_face(w, q, p);
                assert(up[k].remove(p) == l);
                assert(w.remove(q) == up[k]);
            }
        }
        lemma_product_count_pair(a, b, r, c, up.len(), kp, kq);
    } else {
        lemma_product_count_pair(a, b, r, c, up.len(), -1, -2);
    }
}

} // verus!
