//! The standard persistence reduction: columns of a boundary matrix, in filtration
//! order, are reduced left to right by adding earlier reduced columns with the same
//! lowest nonzero entry (`low`), over GF(2).
use vstd::prelude::*;
use crate::boundary::BoundaryMatrix;
use crate::duality::{lemma_rank_of_transpose, lemma_row_space_finite, lemma_combo_at_xor_coeffs, lemma_combo_at_zero_coeffs, lemma_row_in_space, lemma_row_space_subset};
use crate::gf2::{coeff_vectors, combo, combo_at, has_rank, lemma_coeff_vectors_len, lemma_rank_unique, row_space, xor_rows};
use vstd::relations::injective_on;
use vstd::set_lib::lemma_map_size;

verus! {

/// Position of the last set entry of `v`, or -1 when `v` is zero.
pub open spec fn low(v: Seq<bool>) -> int
    decreases v.len(),
{
    if v.len() == 0 {
        -1
    } else if v.last() {
        v.len() - 1
    } else {
        low(v.drop_last())
    }
}

/// `low` is -1 or a set entry with only unset entries after it.
pub proof fn lemma_low(v: Seq<bool>)
    ensures
        -1 <= low(v) < v.len(),
        low(v) >= 0 ==> v[low(v)],
        forall|i: int| low(v) < i < v.len() ==> !v[i],
    decreases v.len(),
{
    if v.len() > 0 {
        let w = v.drop_last();
        lemma_low(w);
        assert forall|i: int| low(v) < i < v.len() implies !v[i] by {
            if i < v.len() - 1 {
                assert(v[i] == w[i]);
            }
        }
    }
}

/// A vector with no set entry from `m` on has its `low` below `m`.
pub proof fn lemma_low_below(v: Seq<bool>, m: int)
    requires
        0 <= m,
        forall|i: int| m <= i < v.len() ==> !v[i],
    ensures
        low(v) < m,
    decreases v.len(),
{
    if v.len() > 0 {
        if v.len() - 1 >= m {
            lemma_low_below(v.drop_last(), m);
        } else {
            lemma_low(v);
        }
    }
}

/// Adding two vectors of one length with the same `low` lowers it.
pub proof fn lemma_low_xor(v: Seq<bool>, p: Seq<bool>)
    requires
        v.len() == p.len(),
        low(v) >= 0,
        low(p) == low(v),
    ensures
        -1 <= low(xor_rows(v, p)) < low(v),
{
    lemma_low(v);
    lemma_low(p);
    let x = xor_rows(v, p);
    lemma_low(x);
    lemma_low_below(x, low(v));
}

/// Some earlier column of the length of `v` has the same `low` as `v`.
pub open spec fn has_pivot(prev: Seq<Seq<bool>>, v: Seq<bool>) -> bool {
    exists|k: int| 0 <= k < prev.len() && #[trigger] prev[k].len() == v.len() && low(prev[k]) == low(v)
}

/// Reduce `v` against the reduced columns `prev`: while some earlier column has the
/// same `low`, add it.
pub open spec fn reduce_col(v: Seq<bool>, prev: Seq<Seq<bool>>) -> Seq<bool>
    decreases low(v) + 1,
{
    if low(v) >= 0 && has_pivot(prev, v) {
        let k = choose|k: int| 0 <= k < prev.len() && #[trigger] prev[k].len() == v.len() && low(prev[k]) == low(v);
        proof {
            lemma_low_xor(v, prev[k]);
        }
        reduce_col(xor_rows(v, prev[k]), prev)
    } else {
        v
    }
}

/// The first `j` columns of `d`, each reduced against the reduced columns before it.
pub open spec fn reduce_all(d: Seq<Seq<bool>>, j: nat) -> Seq<Seq<bool>>
    decreases j,
{
    if j == 0 {
        Seq::empty()
    } else {
        let prev = reduce_all(d, (j - 1) as nat);
        prev.push(reduce_col(d[j - 1], prev))
    }
}

/// The columns of a `rows` by `cols` matrix.
pub open spec fn transpose(cells: Seq<Seq<bool>>, rows: nat, cols: nat) -> Seq<Seq<bool>> {
    Seq::new(cols, |c: int| Seq::new(rows, |r: int| cells[r][c]))
}

/// The contents of a vector of columns.
pub open spec fn columns_view(v: Seq<Vec<bool>>) -> Seq<Seq<bool>> {
    v.map_values(|c: Vec<bool>| c@)
}

/// The `low` of a column.
pub(crate) fn low_of(v: &Vec<bool>) -> (r: Option<usize>)
    ensures
        match r {
            None => low(v@) == -1,
            Some(l) => low(v@) == l as int,
        },
{
    proof {
        lemma_low(v@);
    }
    let mut i = v.len();
    while i > 0
        invariant
            i <= v@.len(),
            forall|k: int| i <= k < v@.len() ==> !v@[k],
        decreases i,
    {
        if v[i - 1] {
            proof {
                lemma_low_below(v@, i as int);
                lemma_low(v@);
            }
            return Some(i - 1);
        }
        i = i - 1;
    }
    proof {
        lemma_low_below(v@, 0);
    }
    None
}

/// Reduce the columns of a boundary matrix, left to right, by the standard algorithm.
/// Nonzero reduced columns have distinct `low`s.
pub fn reduce_columns(m: &BoundaryMatrix) -> (red: Vec<Vec<bool>>)
    requires
        m.well_formed(),
    ensures
        columns_view(red@) == reduce_all(transpose(m.cells(), m.rows as nat, m.cols as nat), m.cols as nat),
        forall|k: int| 0 <= k < red@.len() ==> (#[trigger] red@[k])@.len() == m.rows,
        forall|k1: int, k2: int|
            0 <= k1 < red@.len() && 0 <= k2 < red@.len() && k1 != k2 && low(red@[k1]@) >= 0 ==> low(
                #[trigger] red@[k1]@,
            ) != low(#[trigger] red@[k2]@),
{
    let rows = m.rows;
    let cols = m.cols;
    let ghost d = transpose(m.cells(), rows as nat, cols as nat);
    let mut red: Vec<Vec<bool>> = Vec::new();
    let mut piv: Vec<Option<usize>> = Vec::new();
    for r in 0..rows
        invariant
            piv@.len() == r,
            forall|q: int| 0 <= q < r ==> piv@[q] is None,
    {
        piv.push(None);
    }
    let mut j: usize = 0;
    while j < cols
        invariant
            rows == m.rows,
            cols == m.cols,
            m.well_formed(),
            d == transpose(m.cells(), rows as nat, cols as nat),
            j <= cols,
            red@.len() == j,
            piv@.len() == rows,
            forall|k: int| 0 <= k < j ==> (#[trigger] red@[k])@.len() == rows,
            columns_view(red@) == reduce_all(d, j as nat),
            forall|r: int|
                0 <= r < rows ==> match #[trigger] piv@[r] {
                    Some(k) => k < j && low(red@[k as int]@) == r,
                    None => true,
                },
            forall|k: int| 0 <= k < j && low((#[trigger] red@[k])@) >= 0 ==> piv@[low(red@[k]@)] == Some(k as usize),
        decreases cols - j,
    {
        let ghost prev = columns_view(red@);
        let mut cur: Vec<bool> = Vec::new();
        for r in 0..rows
            invariant
                j < cols,
                rows == m.rows,
                cols == m.cols,
                m.well_formed(),
                d == transpose(m.cells(), rows as nat, cols as nat),
                cur@.len() == r,
                forall|q: int| 0 <= q < r ==> cur@[q] == d[j as int][q],
        {
            cur.push(m.entries[r][j]);
        }
        assert(cur@ =~= d[j as int]);
        proof {
            lemma_low(cur@);
        }
        loop
            invariant_except_break
                cur@.len() == rows,
                red@.len() == j,
                prev == columns_view(red@),
                forall|k: int| 0 <= k < j ==> (#[trigger] red@[k])@.len() == rows,
                piv@.len() == rows,
                forall|r: int|
                    0 <= r < rows ==> match #[trigger] piv@[r] {
                        Some(k) => k < j && low(red@[k as int]@) == r,
                        None => true,
                    },
                forall|k: int| 0 <= k < j && low((#[trigger] red@[k])@) >= 0 ==> piv@[low(red@[k]@)] == Some(k as usize),
                reduce_col(cur@, prev) == reduce_col(d[j as int], prev),
                -1 <= low(cur@),
            ensures
                cur@.len() == rows,
                red@.len() == j,
                prev == columns_view(red@),
                forall|k: int| 0 <= k < j ==> (#[trigger] red@[k])@.len() == rows,
                piv@.len() == rows,
                forall|r: int|
                    0 <= r < rows ==> match #[trigger] piv@[r] {
                        Some(k) => k < j && low(red@[k as int]@) == r,
                        None => true,
                    },
                forall|k: int| 0 <= k < j && low((#[trigger] red@[k])@) >= 0 ==> piv@[low(red@[k]@)] == Some(k as usize),
                reduce_col(d[j as int], prev) == cur@,
                low(cur@) >= 0 ==> piv@[low(cur@)] is None,
                low(cur@) < rows,
            decreases low(cur@) + 1,
        {
            proof {
                lemma_low(cur@);
            }
            match low_of(&cur) {
                None => {
                    break ;
                },
                Some(l) => {
                    match piv[l] {
                        None => {
                            proof {
                                if has_pivot(prev, cur@) {
                                    let k = choose|k: int|
                                        0 <= k < prev.len() && #[trigger] prev[k].len() == cur@.len() && low(prev[k])
                                            == low(cur@);
                                    assert(prev[k] == red@[k]@);
                                    assert(piv@[l as int] == Some(k as usize));
                                }
                            }
                            break ;
                        },
                        Some(k) => {
                            let ghost before = cur@;
                            proof {
                                assert(prev[k as int] == red@[k as int]@);
                                assert(has_pivot(prev, before));
                                let k2 = choose|k2: int|
                                    0 <= k2 < prev.len() && #[trigger] prev[k2].len() == before.len() && low(prev[k2])
                                        == low(before);
                                assert(prev[k2] == red@[k2]@);
                                assert(piv@[low(red@[k2]@)] == Some(k2 as usize));
                                assert(k2 == k);
                                lemma_low_xor(before, prev[k as int]);
                            }
                            for r in 0..rows
                                invariant
                                    k < j,
                                    red@.len() == j,
                                    rows == red@[k as int]@.len(),
                                    cur@.len() == rows,
                                    before.len() == rows,
                                    forall|q: int| 0 <= q < r ==> cur@[q] == (before[q] != red@[k as int]@[q]),
                                    forall|q: int| r <= q < rows ==> cur@[q] == before[q],
                            {
                                let b = cur[r] != red[k][r];
                                cur.set(r, b);
                            }
                            assert(cur@ =~= xor_rows(before, prev[k as int]));
                        },
                    }
                },
            }
        }
        let ghost old_piv = piv@;
        let low_new = low_of(&cur);
        match low_new {
            Some(l) => {
                piv.set(l, Some(j));
            },
            None => {},
        }
        let ghost prev_red = red@;
        let ghost cv = cur@;
        assert(low(cv) >= 0 ==> piv@ == old_piv.update(low(cv), Some(j)));
        assert(low(cv) < 0 ==> piv@ == old_piv);
        red.push(cur);
        proof {
            assert(columns_view(red@) =~= columns_view(prev_red).push(red@[j as int]@));
            assert(reduce_all(d, (j + 1) as nat) == prev.push(reduce_col(d[j as int], prev)));
            assert forall|k: int| 0 <= k < j + 1 && low((#[trigger] red@[k])@) >= 0 implies piv@[low(red@[k]@)]
                == Some(k as usize) by {
                if k < j {
                    assert(red@[k] == prev_red[k]);
                    lemma_low(prev_red[k]@);
                    assert(old_piv[low(prev_red[k]@)] == Some(k as usize));
                    if low(prev_red[k]@) == low(cv) {
                        assert(old_piv[low(cv)] is None);
                    }
                } else {
                    assert(red@[k]@ == cv);
                }
            }
        }
        j = j + 1;
    }
    proof {
        assert forall|k1: int, k2: int|
            0 <= k1 < red@.len() && 0 <= k2 < red@.len() && k1 != k2 && low(red@[k1]@) >= 0 implies low(
                #[trigger] red@[k1]@,
            ) != low(#[trigger] red@[k2]@) by {
            if low(red@[k1]@) == low(red@[k2]@) {
                assert(piv@[low(red@[k1]@)] == Some(k1 as usize));
                assert(piv@[low(red@[k2]@)] == Some(k2 as usize));
            }
        }
    }
    red
}

/// Reducing `j` columns gives `j` columns.
pub proof fn lemma_reduce_all_len(d: Seq<Seq<bool>>, j: nat)
    ensures
        reduce_all(d, j).len() == j,
    decreases j,
{
    if j > 0 {
        lemma_reduce_all_len(d, (j - 1) as nat);
    }
}


/// The columns of `cols` that are not zero, in order.
pub open spec fn nonzero_columns(cols: Seq<Seq<bool>>) -> Seq<Seq<bool>>
    decreases cols.len(),
{
    if cols.len() == 0 {
        Seq::empty()
    } else if low(cols.last()) >= 0 {
        nonzero_columns(cols.drop_last()).push(cols.last())
    } else {
        nonzero_columns(cols.drop_last())
    }
}

/// The number of zero columns of `cols`.
pub open spec fn zero_columns(cols: Seq<Seq<bool>>) -> nat
    decreases cols.len(),
{
    if cols.len() == 0 {
        0
    } else if low(cols.last()) >= 0 {
        zero_columns(cols.drop_last())
    } else {
        zero_columns(cols.drop_last()) + 1
    }
}

/// The zero vector lies in every row space.
proof fn lemma_zero_in_space(b: Seq<Seq<bool>>, width: nat)
    ensures
        row_space(b, width).contains(Seq::new(width, |j: int| false)),
{
    let z = Seq::new(b.len(), |i: int| false);
    assert forall|j: int| 0 <= j < width implies !combo_at(b, z, j) by {
        lemma_combo_at_zero_coeffs(b, z, j);
    }
    assert(combo(b, z, width) =~= Seq::new(width, |j: int| false));
    assert(z.len() == b.len());
}

/// A row space is closed under sums.
proof fn lemma_space_xor(b: Seq<Seq<bool>>, width: nat, x: Seq<bool>, y: Seq<bool>)
    requires
        row_space(b, width).contains(x),
        row_space(b, width).contains(y),
    ensures
        row_space(b, width).contains(xor_rows(x, y)),
{
    let d1 = choose|d: Seq<bool>| #[trigger] d.len() == b.len() && x == combo(b, d, width);
    let d2 = choose|d: Seq<bool>| #[trigger] d.len() == b.len() && y == combo(b, d, width);
    let d = xor_rows(d1, d2);
    assert forall|j: int| 0 <= j < width implies xor_rows(x, y)[j] == combo_at(b, d, j) by {
        lemma_combo_at_xor_coeffs(b, d1, d2, j);
    }
    assert(xor_rows(x, y) =~= combo(b, d, width));
    assert(d.len() == b.len());
}

/// One more row widens the row space.
proof fn lemma_space_extend(b: Seq<Seq<bool>>, y: Seq<bool>, width: nat)
    requires
        forall|i: int| 0 <= i < b.len() ==> (#[trigger] b[i]).len() == width,
    ensures
        row_space(b, width).subset_of(row_space(b.push(y), width)),
{
    assert forall|i: int| 0 <= i < b.len() implies (#[trigger] b[i]).len() == width && row_space(b.push(y), width).contains(
        b[i],
    ) by {
        assert(b.push(y)[i] == b[i]);
        lemma_row_in_space(b.push(y), i, width);
    }
    lemma_row_space_subset(b, b.push(y), width);
}

/// Rows of `a` within the span of `b`, and `x` within the span of `b` and `y`: then
/// `a` with `x` spans no more than `b` with `y`.
proof fn lemma_push_space(a: Seq<Seq<bool>>, b: Seq<Seq<bool>>, x: Seq<bool>, y: Seq<bool>, width: nat)
    requires
        forall|i: int| 0 <= i < a.len() ==> (#[trigger] a[i]).len() == width && row_space(b, width).contains(a[i]),
        forall|i: int| 0 <= i < b.len() ==> (#[trigger] b[i]).len() == width,
        x.len() == width,
        row_space(b.push(y), width).contains(x),
    ensures
        row_space(a.push(x), width).subset_of(row_space(b.push(y), width)),
{
    lemma_space_extend(b, y, width);
    let ax = a.push(x);
    assert forall|i: int| 0 <= i < ax.len() implies (#[trigger] ax[i]).len() == width && row_space(b.push(y), width).contains(
        ax[i],
    ) by {
        if i < a.len() {
            assert(ax[i] == a[i]);
        }
    }
    lemma_row_space_subset(ax, b.push(y), width);
}

/// Reducing a column adds a vector of the span of the earlier columns, keeps its length,
/// and leaves it zero or with a `low` no earlier column has.
proof fn lemma_reduce_col(v: Seq<bool>, prev: Seq<Seq<bool>>, h: nat)
    requires
        v.len() == h,
        forall|k: int| 0 <= k < prev.len() ==> (#[trigger] prev[k]).len() == h,
    ensures
        reduce_col(v, prev).len() == h,
        row_space(prev, h).contains(xor_rows(reduce_col(v, prev), v)),
        low(reduce_col(v, prev)) < 0 || !has_pivot(prev, reduce_col(v, prev)),
    decreases low(v) + 1,
{
    lemma_low(v);
    if low(v) >= 0 && has_pivot(prev, v) {
        let k = choose|k: int| 0 <= k < prev.len() && #[trigger] prev[k].len() == v.len() && low(prev[k]) == low(v);
        lemma_low_xor(v, prev[k]);
        let x = xor_rows(v, prev[k]);
        lemma_reduce_col(x, prev, h);
        let rc = reduce_col(x, prev);
        assert(reduce_col(v, prev) == rc);
        lemma_row_in_space(prev, k, h);
        lemma_space_xor(prev, h, xor_rows(rc, x), prev[k]);
        assert(xor_rows(xor_rows(rc, x), prev[k]) =~= xor_rows(rc, v));
    } else {
        lemma_zero_in_space(prev, h);
        assert(xor_rows(v, v) =~= Seq::new(h, |j: int| false));
    }
}

/// Reducing the first `j` columns keeps their span, and the nonzero reduced columns
/// have distinct `low`s.
proof fn lemma_reduce_all_space(d: Seq<Seq<bool>>, h: nat, j: nat)
    requires
        j <= d.len(),
        forall|k: int| 0 <= k < d.len() ==> (#[trigger] d[k]).len() == h,
    ensures
        reduce_all(d, j).len() == j,
        forall|k: int| 0 <= k < j ==> (#[trigger] reduce_all(d, j)[k]).len() == h,
        row_space(reduce_all(d, j), h) == row_space(d.take(j as int), h),
        forall|k1: int, k2: int|
            0 <= k1 < j && 0 <= k2 < j && k1 != k2 && low(#[trigger] reduce_all(d, j)[k1]) >= 0 ==> low(
                reduce_all(d, j)[k1],
            ) != low(#[trigger] reduce_all(d, j)[k2]),
    decreases j,
{
    if j == 0 {
        assert(reduce_all(d, 0) =~= d.take(0));
    } else {
        let prev = reduce_all(d, (j - 1) as nat);
        lemma_reduce_all_space(d, h, (j - 1) as nat);
        let v = d[j - 1];
        let t = d.take(j - 1);
        lemma_reduce_col(v, prev, h);
        let rc = reduce_col(v, prev);
        let red = reduce_all(d, j);
        assert(red == prev.push(rc));
        assert(d.take(j as int) =~= t.push(v));
        assert forall|k: int| 0 <= k < t.len() implies (#[trigger] t[k]).len() == h by {}
        // the span of `prev` with `rc` is that of `prev` with `v`
        lemma_space_extend(prev, v, h);
        lemma_space_extend(prev, rc, h);
        lemma_row_in_space(prev.push(v), j - 1, h);
        lemma_row_in_space(prev.push(rc), j - 1, h);
        assert(prev.push(v)[j - 1] == v);
        assert(prev.push(rc)[j - 1] == rc);
        lemma_space_xor(prev.push(v), h, v, xor_rows(rc, v));
        assert(xor_rows(v, xor_rows(rc, v)) =~= rc);
        lemma_space_xor(prev.push(rc), h, rc, xor_rows(rc, v));
        assert(xor_rows(rc, xor_rows(rc, v)) =~= v);
        assert forall|i: int| 0 <= i < prev.len() implies (#[trigger] prev[i]).len() == h && row_space(prev, h).contains(
            prev[i],
        ) by {
            lemma_row_in_space(prev, i, h);
        }
        lemma_push_space(prev, prev, rc, v, h);
        lemma_push_space(prev, prev, v, rc, h);
        // and the span of `prev` with `v` is that of the first `j - 1` columns with `v`
        assert forall|i: int| 0 <= i < t.len() implies (#[trigger] t[i]).len() == h && row_space(prev, h).contains(t[i]) by {
            lemma_row_in_space(t, i, h);
        }
        assert forall|i: int| 0 <= i < prev.len() implies (#[trigger] prev[i]).len() == h && row_space(t, h).contains(prev[i]) by {
            lemma_row_in_space(prev, i, h);
        }
        lemma_row_in_space(t.push(v), j - 1, h);
        assert(t.push(v)[j - 1] == v);
        lemma_push_space(prev, t, v, v, h);
        lemma_push_space(t, prev, v, v, h);
        assert(row_space(red, h) =~= row_space(d.take(j as int), h));
        assert forall|k1: int, k2: int|
            0 <= k1 < j && 0 <= k2 < j && k1 != k2 && low(#[trigger] red[k1]) >= 0 implies low(red[k1]) != low(
                #[trigger] red[k2],
            ) by {
            if k1 == j - 1 {
                assert(red[k1] == rc);
                assert(red[k2] == prev[k2]);
                assert(prev[k2].len() == rc.len());
            } else if k2 == j - 1 {
                assert(red[k2] == rc);
                assert(red[k1] == prev[k1]);
                assert(prev[k1].len() == rc.len());
            } else {
                assert(red[k1] == prev[k1] && red[k2] == prev[k2]);
            }
        }
    }
}


/// Among the first `n` rows selected by `e`, the one with the highest `low`, or -1.
pub open spec fn top_selected(rows: Seq<Seq<bool>>, e: Seq<bool>, n: nat) -> int
    decreases n,
{
    if n == 0 {
        -1
    } else {
        let t = top_selected(rows, e, (n - 1) as nat);
        if e[n - 1] && (t < 0 || low(rows[n - 1]) > low(rows[t])) {
            n - 1
        } else {
            t
        }
    }
}

proof fn lemma_top_selected(rows: Seq<Seq<bool>>, e: Seq<bool>, n: nat)
    ensures
        -1 <= top_selected(rows, e, n) < n,
        top_selected(rows, e, n) >= 0 ==> e[top_selected(rows, e, n)],
        forall|i: int|
            0 <= i < n && #[trigger] e[i] ==> top_selected(rows, e, n) >= 0 && low(rows[i]) <= low(
                rows[top_selected(rows, e, n)],
            ),
    decreases n,
{
    if n > 0 {
        lemma_top_selected(rows, e, (n - 1) as nat);
    }
}

proof fn lemma_combo_at_no_terms(rows: Seq<Seq<bool>>, e: Seq<bool>, p: int)
    requires
        forall|i: int| 0 <= i < rows.len() ==> !(#[trigger] e[i] && rows[i][p]),
    ensures
        !combo_at(rows, e, p),
    decreases rows.len(),
{
    if rows.len() > 0 {
        lemma_combo_at_no_terms(rows.drop_last(), e, p);
    }
}

proof fn lemma_combo_at_single(rows: Seq<Seq<bool>>, e: Seq<bool>, p: int, t: int)
    requires
        0 <= t < rows.len(),
        forall|i: int| 0 <= i < rows.len() ==> (#[trigger] e[i] && rows[i][p]) == (i == t),
    ensures
        combo_at(rows, e, p),
    decreases rows.len(),
{
    let n = rows.len();
    if t == n - 1 {
        lemma_combo_at_no_terms(rows.drop_last(), e, p);
    } else {
        lemma_combo_at_single(rows.drop_last(), e, p, t);
    }
}

/// Nonzero columns with distinct `low`s are independent: they span `2^n` vectors.
proof fn lemma_distinct_lows_rank(rows: Seq<Seq<bool>>, width: nat)
    requires
        forall|i: int| 0 <= i < rows.len() ==> (#[trigger] rows[i]).len() == width && low(rows[i]) >= 0,
        forall|i1: int, i2: int|
            0 <= i1 < rows.len() && 0 <= i2 < rows.len() && i1 != i2 ==> low(#[trigger] rows[i1]) != low(
                #[trigger] rows[i2],
            ),
    ensures
        has_rank(rows, width, rows.len()),
{
    let n = rows.len();
    let f = |c: Seq<bool>| combo(rows, c, width);
    let cs = coeff_vectors(n);
    lemma_row_space_finite(rows, width);
    assert(injective_on(f, cs)) by {
        assert forall|x: Seq<bool>, y: Seq<bool>|
            cs.contains(x) && cs.contains(y) && #[trigger] f(x) == #[trigger] f(y) implies x == y by {
            let e = xor_rows(x, y);
            if exists|i: int| 0 <= i < n && #[trigger] e[i] {
                let i0 = choose|i: int| 0 <= i < n && #[trigger] e[i];
                lemma_top_selected(rows, e, n);
                let t = top_selected(rows, e, n);
                let p = low(rows[t]);
                lemma_low(rows[t]);
                assert forall|i: int| 0 <= i < n implies (#[trigger] e[i] && rows[i][p]) == (i == t) by {
                    if i != t && e[i] {
                        lemma_low(rows[i]);
                        assert(low(rows[i]) < p);
                    }
                }
                lemma_combo_at_single(rows, e, p, t);
                lemma_combo_at_xor_coeffs(rows, x, y, p);
                assert(f(x)[p] == f(y)[p]);
            }
            assert(x =~= y) by {
                assert forall|i: int| 0 <= i < n implies x[i] == y[i] by {
                    assert(!e[i]);
                }
            }
        }
    }
    lemma_coeff_vectors_len(n);
    lemma_map_size(cs, cs.map(f), f);
}

/// The nonzero columns and the zero ones add up to all the columns; the nonzero ones
/// are columns of `cols`, and every nonzero column is among them.
proof fn lemma_nonzero_columns(cols: Seq<Seq<bool>>)
    ensures
        nonzero_columns(cols).len() + zero_columns(cols) == cols.len(),
        forall|i: int|
            0 <= i < nonzero_columns(cols).len() ==> cols.contains(#[trigger] nonzero_columns(cols)[i]) && low(
                nonzero_columns(cols)[i],
            ) >= 0,
        forall|k: int| 0 <= k < cols.len() && low(#[trigger] cols[k]) >= 0 ==> nonzero_columns(cols).contains(cols[k]),
    decreases cols.len(),
{
    if cols.len() > 0 {
        let prev = cols.drop_last();
        lemma_nonzero_columns(prev);
        let nz = nonzero_columns(cols);
        let nzp = nonzero_columns(prev);
        assert forall|i: int| 0 <= i < nz.len() implies cols.contains(#[trigger] nz[i]) && low(nz[i]) >= 0 by {
            if i < nzp.len() {
                assert(nz[i] == nzp[i]);
                assert(prev.contains(nzp[i]));
                let k = choose|k: int| 0 <= k < prev.len() && prev[k] == nzp[i];
                assert(cols[k] == prev[k]);
            } else {
                assert(nz[i] == cols[cols.len() - 1]);
            }
        }
        assert forall|k: int| 0 <= k < cols.len() && low(#[trigger] cols[k]) >= 0 implies nz.contains(cols[k]) by {
            if k < prev.len() {
                assert(prev[k] == cols[k]);
                assert(nzp.contains(prev[k]));
                let i = choose|i: int| 0 <= i < nzp.len() && nzp[i] == prev[k];
                assert(nz[i] == nzp[i]);
            } else {
                assert(nz[nzp.len() as int] == cols[k]);
            }
        }
    } else {
        assert(nonzero_columns(cols).len() == 0);
    }
}

/// Where the nonzero columns have distinct `low`s, so do the listed ones.
proof fn lemma_nonzero_columns_distinct_lows(cols: Seq<Seq<bool>>)
    requires
        forall|k1: int, k2: int|
            0 <= k1 < cols.len() && 0 <= k2 < cols.len() && k1 != k2 && low(#[trigger] cols[k1]) >= 0 ==> low(
                cols[k1],
            ) != low(#[trigger] cols[k2]),
    ensures
        forall|i1: int, i2: int|
            0 <= i1 < nonzero_columns(cols).len() && 0 <= i2 < nonzero_columns(cols).len() && i1 != i2 ==> low(
                #[trigger] nonzero_columns(cols)[i1],
            ) != low(#[trigger] nonzero_columns(cols)[i2]),
    decreases cols.len(),
{
    if cols.len() > 0 {
        let prev = cols.drop_last();
        let last = cols.len() - 1;
        assert forall|k1: int, k2: int|
            0 <= k1 < prev.len() && 0 <= k2 < prev.len() && k1 != k2 && low(#[trigger] prev[k1]) >= 0 implies low(
                prev[k1],
            ) != low(#[trigger] prev[k2]) by {
            assert(prev[k1] == cols[k1] && prev[k2] == cols[k2]);
        }
        lemma_nonzero_columns_distinct_lows(prev);
        lemma_nonzero_columns(prev);
        let nz = nonzero_columns(cols);
        let nzp = nonzero_columns(prev);
        if low(cols[last]) >= 0 {
            assert forall|i1: int, i2: int| 0 <= i1 < nz.len() && 0 <= i2 < nz.len() && i1 != i2 implies low(
                #[trigger] nz[i1],
            ) != low(#[trigger] nz[i2]) by {
                if i1 < nzp.len() && i2 < nzp.len() {
                    assert(nz[i1] == nzp[i1] && nz[i2] == nzp[i2]);
                } else {
                    let i = if i1 < nzp.len() { i1 } else { i2 };
                    assert(nz[i] == nzp[i]);
                    assert(prev.contains(nzp[i]));
                    let k = choose|k: int| 0 <= k < prev.len() && prev[k] == nzp[i];
                    assert(prev[k] == cols[k]);
                    assert(low(cols[last]) != low(cols[k]));
                }
            }
        }
    }
}

/// Reduction leaves as many zero columns as the number of columns less the rank: the
/// columns of an `h` by `w` matrix of rank `r` over GF(2), reduced left to right, have
/// exactly `w - r` zero columns.
pub proof fn lemma_reduction_zero_columns(m: Seq<Seq<bool>>, h: nat, w: nat, r: nat)
    requires
        m.len() == h,
        forall|i: int| 0 <= i < h ==> (#[trigger] m[i]).len() == w,
        has_rank(m, w, r),
    ensures
        zero_columns(reduce_all(transpose(m, h, w), w)) + r == w,
{
    let c = transpose(m, h, w);
    lemma_rank_of_transpose(m, h, w, r);
    assert forall|k: int| 0 <= k < c.len() implies (#[trigger] c[k]).len() == h by {}
    lemma_reduce_all_space(c, h, w);
    assert(c.take(w as int) =~= c);
    let red = reduce_all(c, w);
    lemma_nonzero_columns(red);
    let nz = nonzero_columns(red);
    assert forall|i: int| 0 <= i < nz.len() implies (#[trigger] nz[i]).len() == h && low(nz[i]) >= 0 && row_space(
        red,
        h,
    ).contains(nz[i]) by {
        assert(red.contains(nz[i]));
        let k = choose|k: int| 0 <= k < red.len() && red[k] == nz[i];
        lemma_row_in_space(red, k, h);
    }
    lemma_nonzero_columns_distinct_lows(red);
    assert forall|k: int| 0 <= k < red.len() implies (#[trigger] red[k]).len() == h && row_space(nz, h).contains(red[k]) by {
        if low(red[k]) >= 0 {
            assert(nz.contains(red[k]));
            let i = choose|i: int| 0 <= i < nz.len() && nz[i] == red[k];
            lemma_row_in_space(nz, i, h);
        } else {
            lemma_low(red[k]);
            lemma_zero_in_space(nz, h);
            assert(red[k] =~= Seq::new(h, |j: int| false));
        }
    }
    lemma_row_space_subset(nz, red, h);
    lemma_row_space_subset(red, nz, h);
    assert(row_space(nz, h) =~= row_space(c, h));
    lemma_distinct_lows_rank(nz, h);
    lemma_rank_unique(nz, h, r, nz.len());
}

} // verus!
