//! Enumeration of combinations and of the simplices of a Vietoris-Rips complex.
use vstd::prelude::*;
use crate::complex::{simplices_view, strictly_increasing};

verus! {

/// The `k`-element subsequences of `s`, in lexicographic order of their positions:
/// first those that take `s[0]`, then those that skip it.
pub open spec fn k_subsequences(s: Seq<usize>, k: nat) -> Seq<Seq<usize>>
    decreases s.len(),
{
    if k == 0 {
        seq![Seq::empty()]
    } else if s.len() < k {
        Seq::empty()
    } else {
        let rest = s.drop_first();
        k_subsequences(rest, (k - 1) as nat).map_values(|t: Seq<usize>| seq![s[0]] + t)
            + k_subsequences(rest, k)
    }
}

/// Unfolding `k_subsequences` on a suffix of `s` that still has at least `k` elements.
proof fn lemma_k_subsequences_step(s: Seq<usize>, i: int, k: nat)
    requires
        k > 0,
        0 <= i,
        i + k <= s.len(),
    ensures
        k_subsequences(s.skip(i), k) == k_subsequences(s.skip(i + 1), (k - 1) as nat).map_values(
            |t: Seq<usize>| seq![s[i]] + t,
        ) + k_subsequences(s.skip(i + 1), k),
{
    assert(s.skip(i).drop_first() =~= s.skip(i + 1));
    assert(s.skip(i)[0] == s[i]);
}

/// Generate all `k`-combinations of a slice, in lexicographic order of positions.
pub fn combinations(data: &[usize], k: usize) -> (result: Vec<Vec<usize>>)
    ensures
        simplices_view(result@) == k_subsequences(data@, k as nat),
    decreases data@.len(),
{
    if k == 0 {
        let mut result: Vec<Vec<usize>> = Vec::new();
        result.push(Vec::new());
        assert(simplices_view(result@) =~= k_subsequences(data@, k as nat));
        return result;
    }
    if k > data.len() {
        let result: Vec<Vec<usize>> = Vec::new();
        assert(simplices_view(result@) =~= k_subsequences(data@, k as nat));
        return result;
    }
    let n = data.len();
    let mut result: Vec<Vec<usize>> = Vec::new();
    assert(data@.skip(0) =~= data@);
    for i in 0..n - k + 1
        invariant
            n == data@.len(),
            0 < k <= n,
            simplices_view(result@) + k_subsequences(data@.skip(i as int), k as nat) == k_subsequences(
                data@,
                k as nat,
            ),
    {
        let rest = &data[i + 1..n];
        assert(rest@ =~= data@.skip(i + 1));
        let tails = combinations(rest, k - 1);
        let ghost prefixed = k_subsequences(data@.skip(i + 1), (k - 1) as nat).map_values(
            |t: Seq<usize>| seq![data@[i as int]] + t,
        );
        let ghost start = simplices_view(result@);
        proof {
            lemma_k_subsequences_step(data@, i as int, k as nat);
        }
        for t in 0..tails.len()
            invariant
                i < n,
                n == data@.len(),
                prefixed == k_subsequences(data@.skip(i + 1), (k - 1) as nat).map_values(
                    |t: Seq<usize>| seq![data@[i as int]] + t,
                ),
                simplices_view(tails@) == k_subsequences(data@.skip(i + 1), (k - 1) as nat),
                prefixed.len() == tails@.len(),
                simplices_view(result@) == start + prefixed.take(t as int),
        {
            let mut tail = tails[t].clone();
            assert(tail@ =~= tails@[t as int]@);
            let mut combo: Vec<usize> = Vec::new();
            combo.push(data[i]);
            combo.append(&mut tail);
            assert(combo@ =~= prefixed[t as int]) by {
                assert(tails@[t as int]@ == simplices_view(tails@)[t as int]);
            }
            let ghost prev = result@;
            result.push(combo);
            assert(simplices_view(result@) =~= simplices_view(prev).push(combo@));
            assert(simplices_view(result@) =~= start + prefixed.take(t + 1));
        }
        assert(prefixed.take(tails@.len() as int) =~= prefixed);
        assert(simplices_view(result@) + k_subsequences(data@.skip(i + 1), k as nat) =~= start
            + k_subsequences(data@.skip(i as int), k as nat));
    }
    assert(k_subsequences(data@.skip((n - k + 1) as int), k as nat) =~= Seq::empty());
    assert(simplices_view(result@) =~= k_subsequences(data@, k as nat));
    result
}


/// The binomial coefficient `n choose k`, by Pascal's rule.
pub open spec fn binomial(n: nat, k: nat) -> nat
    decreases n,
{
    if k == 0 {
        1
    } else if n == 0 {
        0
    } else {
        binomial((n - 1) as nat, (k - 1) as nat) + binomial((n - 1) as nat, k)
    }
}

/// `idx` picks positions of a sequence of length `n` in strictly increasing order.
pub open spec fn is_selection(idx: Seq<int>, n: int) -> bool {
    &&& forall|i: int| 0 <= i < idx.len() ==> 0 <= #[trigger] idx[i] < n
    &&& forall|i: int, j: int| 0 <= i < j < idx.len() ==> #[trigger] idx[i] < #[trigger] idx[j]
}

/// The elements of `s` at positions `idx`.
pub open spec fn select(s: Seq<usize>, idx: Seq<int>) -> Seq<usize> {
    idx.map_values(|i: int| s[i])
}

proof fn lemma_binomial_zero(n: nat, k: nat)
    requires
        n < k,
    ensures
        binomial(n, k) == 0,
    decreases n,
{
    if n > 0 {
        lemma_binomial_zero((n - 1) as nat, (k - 1) as nat);
        lemma_binomial_zero((n - 1) as nat, k);
    }
}

/// There are `n choose k` combinations of `k` out of `n` elements.
pub proof fn lemma_combinations_count(s: Seq<usize>, k: nat)
    ensures
        k_subsequences(s, k).len() == binomial(s.len(), k),
    decreases s.len(),
{
    if k == 0 {
    } else if s.len() < k {
        lemma_binomial_zero(s.len(), k);
    } else {
        lemma_combinations_count(s.drop_first(), (k - 1) as nat);
        lemma_combinations_count(s.drop_first(), k);
    }
}

/// Every combination has `k` elements, taken from `s` at strictly increasing positions.
pub proof fn lemma_combinations_sound(s: Seq<usize>, k: nat, t: Seq<usize>)
    requires
        k_subsequences(s, k).contains(t),
    ensures
        exists|idx: Seq<int>|
            #[trigger] is_selection(idx, s.len() as int) && idx.len() == k && t == select(s, idx),
    decreases s.len(),
{
    if k == 0 {
        let idx = Seq::<int>::empty();
        assert(t =~= select(s, idx));
        assert(is_selection(idx, s.len() as int));
    } else {
        let rest = s.drop_first();
        let left = k_subsequences(rest, (k - 1) as nat);
        let f = |u: Seq<usize>| seq![s[0]] + u;
        let right = k_subsequences(rest, k);
        let p = choose|p: int| 0 <= p < k_subsequences(s, k).len() && k_subsequences(s, k)[p] == t;
        if p < left.len() {
            let u = left[p];
            assert(left.contains(u));
            lemma_combinations_sound(rest, (k - 1) as nat, u);
            let idx0 = choose|idx: Seq<int>|
                #[trigger] is_selection(idx, rest.len() as int) && idx.len() == k - 1 && u == select(
                    rest,
                    idx,
                );
            let idx = seq![0int] + idx0.map_values(|i: int| i + 1);
            assert(t == f(u));
            assert(t =~= select(s, idx));
            assert(is_selection(idx, s.len() as int));
        } else {
            let u = right[p - left.len()];
            assert(right.contains(u));
            lemma_combinations_sound(rest, k, u);
            let idx0 = choose|idx: Seq<int>|
                #[trigger] is_selection(idx, rest.len() as int) && idx.len() == k && u == select(
                    rest,
                    idx,
                );
            let idx = idx0.map_values(|i: int| i + 1);
            assert(t == u);
            assert(t =~= select(s, idx));
            assert(is_selection(idx, s.len() as int));
        }
    }
}

proof fn lemma_selection_bound(idx: Seq<int>, n: int, i: int)
    requires
        is_selection(idx, n),
        0 <= i < idx.len(),
    ensures
        i <= idx[i],
    decreases i,
{
    if i > 0 {
        lemma_selection_bound(idx, n, i - 1);
    }
}

/// Every choice of `k` elements of `s` at strictly increasing positions is a combination.
pub proof fn lemma_combinations_complete(s: Seq<usize>, idx: Seq<int>)
    requires
        is_selection(idx, s.len() as int),
    ensures
        k_subsequences(s, idx.len()).contains(select(s, idx)),
    decreases s.len(),
{
    let k = idx.len();
    if k == 0 {
        assert(select(s, idx) =~= Seq::<usize>::empty());
        assert(k_subsequences(s, k)[0] == select(s, idx));
    } else {
        lemma_selection_bound(idx, s.len() as int, k - 1);
        let rest = s.drop_first();
        let left = k_subsequences(rest, (k - 1) as nat);
        let right = k_subsequences(rest, k);
        if idx[0] == 0 {
            let idx0 = idx.drop_first().map_values(|i: int| i - 1);
            assert(is_selection(idx0, rest.len() as int)) by {
                assert forall|i: int, j: int| 0 <= i < j < idx0.len() implies #[trigger] idx0[i]
                    < #[trigger] idx0[j] by {
                    assert(idx[i + 1] < idx[j + 1]);
                }
                assert forall|i: int| 0 <= i < idx0.len() implies 0 <= #[trigger] idx0[i]
                    < rest.len() by {
                    assert(idx[0] < idx[i + 1]);
                }
            }
            lemma_combinations_complete(rest, idx0);
            assert(idx0.len() == k - 1);
            let u = select(rest, idx0);
            let q = choose|q: int| 0 <= q < left.len() && left[q] == u;
            assert(select(s, idx) =~= seq![s[0]] + u);
            assert(k_subsequences(s, k)[q] == select(s, idx));
        } else {
            let idx0 = idx.map_values(|i: int| i - 1);
            assert(is_selection(idx0, rest.len() as int)) by {
                assert forall|i: int| 0 <= i < idx0.len() implies 0 <= #[trigger] idx0[i]
                    < rest.len() by {
                    if i > 0 {
                        assert(idx[0] < idx[i]);
                    }
                }
            }
            lemma_combinations_complete(rest, idx0);
            let u = select(rest, idx0);
            let q = choose|q: int| 0 <= q < right.len() && right[q] == u;
            assert(select(s, idx) =~= u);
            assert(k_subsequences(s, k)[left.len() + q] == select(s, idx));
        }
    }
}

/// The vertices `0..n`.
pub open spec fn vertex_range(n: nat) -> Seq<usize> {
    Seq::new(n, |i: int| i as usize)
}

/// The simplices on the vertices `0..n` with `1` up to `top + 1` vertices: all vertices,
/// then all edges, and so on, each group in lexicographic order.
pub open spec fn rips_skeleton(n: nat, top: nat) -> Seq<Seq<usize>>
    decreases top,
{
    if top == 0 {
        k_subsequences(vertex_range(n), 1)
    } else {
        rips_skeleton(n, (top - 1) as nat) + k_subsequences(vertex_range(n), top + 1)
    }
}

/// Vietoris-Rips complex builder.
pub struct VietorisRips;

impl VietorisRips {
    /// The simplices of the Vietoris-Rips complex on `n` points up to dimension
    /// `max_dim`: the vertices, then (for `max_dim >= 1`) the edges, then for each
    /// dimension from 2 to `max_dim` every set of that many plus one points. Their
    /// birth values, and the filtration order, come from the point distances.
    pub fn simplices(n: usize, max_dim: usize) -> (res: Vec<Vec<usize>>)
        requires
            max_dim < usize::MAX,
        ensures
            simplices_view(res@) == rips_skeleton(n as nat, max_dim as nat),
    {
        let mut vertices: Vec<usize> = Vec::new();
        for i in 0..n
            invariant
                vertices@.len() == i,
                forall|k: int| 0 <= k < i ==> vertices@[k] == k,
        {
            vertices.push(i);
        }
        assert(vertices@ =~= vertex_range(n as nat));
        let top = max_dim;
        let mut res = combinations(vertices.as_slice(), 1);
        let mut dim: usize = 1;
        while dim <= top
            invariant
                1 <= dim <= top + 1,
                top < usize::MAX,
                vertices@ == vertex_range(n as nat),
                simplices_view(res@) == rips_skeleton(n as nat, (dim - 1) as nat),
            decreases top + 1 - dim,
        {
            let mut more = combinations(vertices.as_slice(), dim + 1);
            let ghost prev = res@;
            let ghost extra = more@;
            res.append(&mut more);
            assert(simplices_view(res@) =~= simplices_view(prev) + simplices_view(extra));
            dim = dim + 1;
        }
        res
    }
}

/// Every set of one to `top + 1` of the vertices `0..n`, listed in increasing order,
/// is a simplex of the skeleton.
pub proof fn lemma_rips_skeleton_complete(n: nat, top: nat, idx: Seq<int>)
    requires
        is_selection(idx, n as int),
        1 <= idx.len() <= top + 1,
    ensures
        rips_skeleton(n, top).contains(select(vertex_range(n), idx)),
    decreases top,
{
    lemma_combinations_complete(vertex_range(n), idx);
    let t = select(vertex_range(n), idx);
    let here = k_subsequences(vertex_range(n), idx.len());
    let q = choose|q: int| 0 <= q < here.len() && here[q] == t;
    if top == 0 {
        assert(rips_skeleton(n, top)[q] == t);
    } else if idx.len() == top + 1 {
        let prev = rips_skeleton(n, (top - 1) as nat);
        assert(rips_skeleton(n, top)[prev.len() + q] == t);
    } else {
        lemma_rips_skeleton_complete(n, (top - 1) as nat, idx);
        let prev = rips_skeleton(n, (top - 1) as nat);
        let p = choose|p: int| 0 <= p < prev.len() && prev[p] == t;
        assert(rips_skeleton(n, top)[p] == t);
    }
}

/// The combinations of a strictly increasing sequence are all different.
pub proof fn lemma_combinations_distinct(s: Seq<usize>, k: nat)
    requires
        strictly_increasing(s),
    ensures
        k_subsequences(s, k).no_duplicates(),
    decreases s.len(),
{
    if k > 0 && s.len() >= k {
        let rest = s.drop_first();
        assert(strictly_increasing(rest));
        lemma_combinations_distinct(rest, (k - 1) as nat);
        lemma_combinations_distinct(rest, k);
        let left = k_subsequences(rest, (k - 1) as nat);
        let right = k_subsequences(rest, k);
        let f = |t: Seq<usize>| seq![s[0]] + t;
        let all = k_subsequences(s, k);
        let lm = left.map_values(f);
        assert(all == lm + right);
        assert forall|a: int, b: int| 0 <= a < all.len() && 0 <= b < all.len() && a != b implies all[a] != all[b] by {
            if a < lm.len() && b < lm.len() {
                assert(lm[a] == f(left[a]) && lm[b] == f(left[b]));
                assert(left[a] != left[b]);
                assert(f(left[a]).drop_first() =~= left[a]);
                assert(f(left[b]).drop_first() =~= left[b]);
            } else if a >= lm.len() && b >= lm.len() {
                assert(right[a - lm.len()] != right[b - lm.len()]);
            } else {
                let (x, y) = if a < lm.len() { (a, b) } else { (b, a) };
                let t = right[y - lm.len()];
                assert(right.contains(t));
                lemma_combinations_sound(rest, k, t);
                let idx = choose|idx: Seq<int>|
                    #[trigger] is_selection(idx, rest.len() as int) && idx.len() == k && t == select(rest, idx);
                assert(t[0] == rest[idx[0]]);
                assert(rest[idx[0]] == s[idx[0] + 1]);
                assert(s[0] < s[idx[0] + 1]);
                assert(all[x][0] == s[0]);
            }
        }
    }
}

/// How many simplices the skeleton has: `n choose 1` up to `n choose (top + 1)`.
pub open spec fn skeleton_count(n: nat, top: nat) -> nat
    decreases top,
{
    if top == 0 {
        binomial(n, 1)
    } else {
        skeleton_count(n, (top - 1) as nat) + binomial(n, top + 1)
    }
}

/// The skeleton lists every simplex once: it has no repeats and
/// `n choose 1 + ... + n choose (top + 1)` simplices.
pub proof fn lemma_rips_skeleton_count(n: nat, top: nat)
    requires
        n <= usize::MAX + 1,
    ensures
        rips_skeleton(n, top).no_duplicates(),
        rips_skeleton(n, top).len() == skeleton_count(n, top),
        forall|q: int| 0 <= q < rips_skeleton(n, top).len() ==> 1 <= #[trigger] rips_skeleton(n, top)[q].len() <= top + 1,
    decreases top,
{
    let vs = vertex_range(n);
    assert(strictly_increasing(vs));
    lemma_combinations_count(vs, top + 1);
    lemma_combinations_distinct(vs, top + 1);
    let here = k_subsequences(vs, top + 1);
    assert forall|q: int| 0 <= q < here.len() implies #[trigger] here[q].len() == top + 1 by {
        assert(here.contains(here[q]));
        lemma_combinations_sound(vs, top + 1, here[q]);
    }
    if top > 0 {
        lemma_rips_skeleton_count(n, (top - 1) as nat);
        let prev = rips_skeleton(n, (top - 1) as nat);
        let all = rips_skeleton(n, top);
        assert(all == prev + here);
        assert forall|a: int, b: int| 0 <= a < all.len() && 0 <= b < all.len() && a != b implies all[a] != all[b] by {
            if a < prev.len() && b < prev.len() {
            } else if a >= prev.len() && b >= prev.len() {
                assert(here[a - prev.len()] != here[b - prev.len()]);
            } else if a < prev.len() {
                assert(all[a].len() <= top && all[b].len() == top + 1);
            } else {
                assert(all[b].len() <= top && all[a].len() == top + 1);
            }
        }
    }
}

} // verus!
