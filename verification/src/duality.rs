//! Row rank equals column rank over GF(2): a matrix and its transpose have row spaces
//! of the same size. The proof eliminates to reduced echelon form, tracking the
//! column space through every row operation.
use vstd::prelude::*;
use vstd::relations::injective_on;
use vstd::set_lib::*;
use crate::gf2::{
    add_row, coeff_vectors, combo, combo_at, has_rank, lemma_add_row_space, lemma_coeff_vectors_len,
    lemma_combo_at_pivot, lemma_combo_at_update_coeff, lemma_rank_unique,
    lemma_reduced_echelon_rank, lemma_swap_rows_space, reduced_echelon, row_space, swap_rows, xor_rows,
};
use crate::reduction::transpose;

verus! {

/// The row space is the image of the coefficient vectors, so it is finite.
pub proof fn lemma_row_space_finite(rows: Seq<Seq<bool>>, width: nat)
    ensures
        row_space(rows, width) == coeff_vectors(rows.len()).map(|c: Seq<bool>| combo(rows, c, width)),
        row_space(rows, width).finite(),
{
    let f = |c: Seq<bool>| combo(rows, c, width);
    let cs = coeff_vectors(rows.len());
    assert(row_space(rows, width) =~= cs.map(f)) by {
        assert forall|v: Seq<bool>| row_space(rows, width).contains(v) implies #[trigger] cs.map(f).contains(v) by {
            let c = choose|c: Seq<bool>| #[trigger] c.len() == rows.len() && v == combo(rows, c, width);
            assert(cs.contains(c));
        }
        assert forall|v: Seq<bool>| #[trigger] cs.map(f).contains(v) implies row_space(rows, width).contains(v) by {
            let c = choose|c: Seq<bool>| cs.contains(c) && f(c) == v;
            assert(c.len() == rows.len());
        }
    }
    lemma_coeff_vectors_len(rows.len());
    cs.lemma_map_finite(f);
}

/// A sum reads one column of `rows2` the way it reads another column of `rows1`, when
/// every row agrees there.
proof fn lemma_combo_at_same_column(rows1: Seq<Seq<bool>>, rows2: Seq<Seq<bool>>, c: Seq<bool>, k1: int, k2: int)
    requires
        rows1.len() == rows2.len(),
        forall|i: int| 0 <= i < rows1.len() ==> #[trigger] rows2[i][k2] == rows1[i][k1],
    ensures
        combo_at(rows2, c, k2) == combo_at(rows1, c, k1),
    decreases rows1.len(),
{
    if rows1.len() > 0 {
        lemma_combo_at_same_column(rows1.drop_last(), rows2.drop_last(), c, k1, k2);
    }
}

/// A column of `rows2` that is the sum of two columns of `rows1` sums to the sum of
/// their sums.
proof fn lemma_combo_at_sum_column(rows1: Seq<Seq<bool>>, rows2: Seq<Seq<bool>>, c: Seq<bool>, k: int, a: int, b: int)
    requires
        rows1.len() == rows2.len(),
        forall|i: int| 0 <= i < rows1.len() ==> #[trigger] rows2[i][k] == (rows1[i][a] != rows1[i][b]),
    ensures
        combo_at(rows2, c, k) == (combo_at(rows1, c, a) != combo_at(rows1, c, b)),
    decreases rows1.len(),
{
    if rows1.len() > 0 {
        lemma_combo_at_sum_column(rows1.drop_last(), rows2.drop_last(), c, k, a, b);
    }
}

/// Where every sum of `t2` is an injective image of the same sum of `t1`, the two row
/// spaces have the same size.
proof fn lemma_row_space_image(t1: Seq<Seq<bool>>, t2: Seq<Seq<bool>>, width: nat, phi: spec_fn(Seq<bool>) -> Seq<bool>)
    requires
        t1.len() == t2.len(),
        forall|c: Seq<bool>| c.len() == t1.len() ==> #[trigger] combo(t2, c, width) == phi(combo(t1, c, width)),
        forall|x: Seq<bool>, y: Seq<bool>|
            x.len() == width && y.len() == width && #[trigger] phi(x) == #[trigger] phi(y) ==> x == y,
    ensures
        row_space(t2, width).len() == row_space(t1, width).len(),
{
    let s1 = row_space(t1, width);
    let s2 = row_space(t2, width);
    lemma_row_space_finite(t1, width);
    assert(s2 =~= s1.map(phi)) by {
        assert forall|v: Seq<bool>| s2.contains(v) implies #[trigger] s1.map(phi).contains(v) by {
            let c = choose|c: Seq<bool>| #[trigger] c.len() == t2.len() && v == combo(t2, c, width);
            assert(s1.contains(combo(t1, c, width)));
        }
        assert forall|v: Seq<bool>| #[trigger] s1.map(phi).contains(v) implies s2.contains(v) by {
            let u = choose|u: Seq<bool>| s1.contains(u) && phi(u) == v;
            let c = choose|c: Seq<bool>| #[trigger] c.len() == t1.len() && u == combo(t1, c, width);
            assert(v == combo(t2, c, width));
        }
    }
    assert(injective_on(phi, s1)) by {
        assert forall|x: Seq<bool>, y: Seq<bool>| s1.contains(x) && s1.contains(y) && #[trigger] phi(x) == #[trigger] phi(
            y,
        ) implies x == y by {
            let cx = choose|c: Seq<bool>| #[trigger] c.len() == t1.len() && x == combo(t1, c, width);
            let cy = choose|c: Seq<bool>| #[trigger] c.len() == t1.len() && y == combo(t1, c, width);
        }
    }
    lemma_map_size(s1, s2, phi);
}

/// Adding row `a` into row `b` of `m` keeps the size of the column space.
proof fn lemma_add_row_column_space(m: Seq<Seq<bool>>, h: nat, w: nat, a: int, b: int)
    requires
        m.len() == h,
        forall|i: int| 0 <= i < h ==> (#[trigger] m[i]).len() == w,
        0 <= a < h,
        0 <= b < h,
        a != b,
    ensures
        row_space(transpose(add_row(m, a, b), h, w), h).len() == row_space(transpose(m, h, w), h).len(),
{
    let t1 = transpose(m, h, w);
    let t2 = transpose(add_row(m, a, b), h, w);
    let phi = |v: Seq<bool>| v.update(b, v[b] != v[a]);
    assert forall|c: Seq<bool>| c.len() == t1.len() implies #[trigger] combo(t2, c, h) == phi(combo(t1, c, h)) by {
        assert forall|k: int| 0 <= k < h implies combo(t2, c, h)[k] == phi(combo(t1, c, h))[k] by {
            if k == b {
                assert forall|i: int| 0 <= i < t1.len() implies #[trigger] t2[i][k] == (t1[i][b] != t1[i][a]) by {}
                lemma_combo_at_sum_column(t1, t2, c, k, b, a);
            } else {
                assert forall|i: int| 0 <= i < t1.len() implies #[trigger] t2[i][k] == t1[i][k] by {}
                lemma_combo_at_same_column(t1, t2, c, k, k);
            }
        }
        assert(combo(t2, c, h) =~= phi(combo(t1, c, h)));
    }
    assert forall|x: Seq<bool>, y: Seq<bool>| x.len() == h && y.len() == h && #[trigger] phi(x) == #[trigger] phi(y) implies x
        == y by {
        assert forall|k: int| 0 <= k < h implies x[k] == y[k] by {
            assert(phi(x)[k] == phi(y)[k]);
            assert(phi(x)[a] == phi(y)[a]);
        }
        assert(x =~= y);
    }
    lemma_row_space_image(t1, t2, h, phi);
}

/// Swapping rows `a` and `b` of `m` keeps the size of the column space.
proof fn lemma_swap_rows_column_space(m: Seq<Seq<bool>>, h: nat, w: nat, a: int, b: int)
    requires
        m.len() == h,
        forall|i: int| 0 <= i < h ==> (#[trigger] m[i]).len() == w,
        0 <= a < h,
        0 <= b < h,
    ensures
        row_space(transpose(swap_rows(m, a, b), h, w), h).len() == row_space(transpose(m, h, w), h).len(),
{
    let t1 = transpose(m, h, w);
    let t2 = transpose(swap_rows(m, a, b), h, w);
    let phi = |v: Seq<bool>| v.update(a, v[b]).update(b, v[a]);
    assert forall|c: Seq<bool>| c.len() == t1.len() implies #[trigger] combo(t2, c, h) == phi(combo(t1, c, h)) by {
        assert forall|k: int| 0 <= k < h implies combo(t2, c, h)[k] == phi(combo(t1, c, h))[k] by {
            let src = if k == b {
                a
            } else if k == a {
                b
            } else {
                k
            };
            assert forall|i: int| 0 <= i < t1.len() implies #[trigger] t2[i][k] == t1[i][src] by {}
            lemma_combo_at_same_column(t1, t2, c, src, k);
        }
        assert(combo(t2, c, h) =~= phi(combo(t1, c, h)));
    }
    assert forall|x: Seq<bool>, y: Seq<bool>| x.len() == h && y.len() == h && #[trigger] phi(x) == #[trigger] phi(y) implies x
        == y by {
        assert forall|k: int| 0 <= k < h implies x[k] == y[k] by {
            assert(phi(x)[k] == phi(y)[k]);
            assert(phi(x)[a] == phi(y)[a]);
            assert(phi(x)[b] == phi(y)[b]);
        }
        assert(x =~= y);
    }
    lemma_row_space_image(t1, t2, h, phi);
}


/// The state of elimination after the first `col` columns: `k` pivot rows with pivot
/// columns `pv`, each pivot column zero outside its pivot row, and the rows from `k`
/// on zero in those columns.
pub open spec fn partial_echelon(m: Seq<Seq<bool>>, h: nat, w: nat, col: nat, k: nat, pv: Seq<int>) -> bool {
    &&& m.len() == h
    &&& forall|i: int| 0 <= i < h ==> (#[trigger] m[i]).len() == w
    &&& k <= col <= w
    &&& k <= h
    &&& pv.len() == k
    &&& forall|i: int| 0 <= i < k ==> 0 <= #[trigger] pv[i] < col
    &&& forall|i: int, r: int| 0 <= i < k && 0 <= r < h ==> (#[trigger] m[r])[#[trigger] pv[i]] == (r == i)
    &&& forall|r: int, j: int| k <= r < h && 0 <= j < col ==> !#[trigger] m[r][j]
}

/// Clear column `col` outside pivot row `k`, from row `row` on, by adding row `k`.
proof fn lemma_clear_column(m: Seq<Seq<bool>>, h: nat, w: nat, col: nat, k: nat, pv: Seq<int>, row: nat) -> (res: Seq<
    Seq<bool>,
>)
    requires
        m.len() == h,
        forall|i: int| 0 <= i < h ==> (#[trigger] m[i]).len() == w,
        k < h,
        k <= col < w,
        row <= h,
        pv.len() == k,
        forall|i: int| 0 <= i < k ==> 0 <= #[trigger] pv[i] < col,
        m[k as int][col as int],
        forall|j: int| 0 <= j < col ==> !#[trigger] m[k as int][j],
        forall|i: int, r: int| 0 <= i < k && 0 <= r < h ==> (#[trigger] m[r])[#[trigger] pv[i]] == (r == i),
        forall|r: int, j: int| k < r < h && 0 <= j < col ==> !#[trigger] m[r][j],
        forall|r: int| 0 <= r < row ==> (#[trigger] m[r])[col as int] == (r == k),
    ensures
        res.len() == h,
        forall|i: int| 0 <= i < h ==> (#[trigger] res[i]).len() == w,
        res[k as int] == m[k as int],
        forall|i: int, r: int| 0 <= i < k && 0 <= r < h ==> (#[trigger] res[r])[#[trigger] pv[i]] == (r == i),
        forall|r: int, j: int| k < r < h && 0 <= j < col ==> !#[trigger] res[r][j],
        forall|r: int| 0 <= r < h ==> (#[trigger] res[r])[col as int] == (r == k),
        row_space(res, w) == row_space(m, w),
        row_space(transpose(res, h, w), h).len() == row_space(transpose(m, h, w), h).len(),
    decreases h - row,
{
    if row == h {
        m
    } else if row != k && m[row as int][col as int] {
        let m1 = add_row(m, k as int, row as int);
        lemma_add_row_space(m, k as int, row as int, w);
        lemma_add_row_column_space(m, h, w, k as int, row as int);
        assert forall|r: int| 0 <= r < row + 1 implies (#[trigger] m1[r])[col as int] == (r == k) by {
            if r == row {
                assert(m1[r][col as int] == (m[r][col as int] != m[k as int][col as int]));
            }
        }
        assert forall|i: int, r: int| 0 <= i < k && 0 <= r < h implies (#[trigger] m1[r])[#[trigger] pv[i]] == (r == i) by {
            if r == row {
                assert(m1[r][pv[i]] == (m[r][pv[i]] != m[k as int][pv[i]]));
            }
        }
        assert forall|r: int, j: int| k < r < h && 0 <= j < col implies !#[trigger] m1[r][j] by {
            if r == row {
                assert(m1[r][j] == (m[r][j] != m[k as int][j]));
            }
        }
        lemma_clear_column(m1, h, w, col, k, pv, row + 1)
    } else {
        lemma_clear_column(m, h, w, col, k, pv, row + 1)
    }
}

/// Elimination from column `col` on reaches reduced echelon form, keeping the row space
/// and the size of the column space.
proof fn lemma_echelon_from(m: Seq<Seq<bool>>, h: nat, w: nat, col: nat, k: nat, pv: Seq<int>) -> (res: (
    Seq<Seq<bool>>,
    nat,
    Seq<int>,
))
    requires
        partial_echelon(m, h, w, col, k, pv),
    ensures
        res.0.len() == h,
        forall|i: int| 0 <= i < h ==> (#[trigger] res.0[i]).len() == w,
        reduced_echelon(res.0, w, res.1, res.2),
        row_space(res.0, w) == row_space(m, w),
        row_space(transpose(res.0, h, w), h).len() == row_space(transpose(m, h, w), h).len(),
    decreases w - col,
{
    if col == w {
        (m, k, pv)
    } else if exists|p: int| k <= p < h && #[trigger] m[p][col as int] {
        let p = choose|p: int| k <= p < h && #[trigger] m[p][col as int];
        let m1 = swap_rows(m, k as int, p);
        lemma_swap_rows_space(m, k as int, p, w);
        lemma_swap_rows_column_space(m, h, w, k as int, p);
        assert forall|i: int, r: int| 0 <= i < k && 0 <= r < h implies (#[trigger] m1[r])[#[trigger] pv[i]] == (r == i) by {
            if r == k {
                assert(m1[r] == m[p]);
            } else if r == p {
                assert(m1[r] == m[k as int]);
            } else {
                assert(m1[r] == m[r]);
            }
        }
        assert forall|r: int, j: int| k <= r < h && 0 <= j < col implies !#[trigger] m1[r][j] by {
            if r == k {
                assert(m1[r] == m[p]);
            } else if r == p {
                assert(m1[r] == m[k as int]);
            } else {
                assert(m1[r] == m[r]);
            }
        }
        assert forall|i: int| 0 <= i < h implies (#[trigger] m1[i]).len() == w by {}
        let m2 = lemma_clear_column(m1, h, w, col, k, pv, 0);
        let pv2 = pv.push(col as int);
        assert forall|i: int, r: int| 0 <= i < k + 1 && 0 <= r < h implies (#[trigger] m2[r])[#[trigger] pv2[i]] == (r
            == i) by {
            if i < k {
                assert(pv2[i] == pv[i]);
            } else {
                assert(pv2[i] == col);
            }
        }
        assert forall|r: int, j: int| k + 1 <= r < h && 0 <= j < col + 1 implies !#[trigger] m2[r][j] by {
            if j == col {
                assert(m2[r][col as int] == (r == k));
            }
        }
        assert(partial_echelon(m2, h, w, col + 1, k + 1, pv2));
        lemma_echelon_from(m2, h, w, col + 1, k + 1, pv2)
    } else {
        assert forall|r: int, j: int| k <= r < h && 0 <= j < col + 1 implies !#[trigger] m[r][j] by {
            if j == col {
                assert(!m[r][col as int]);
            }
        }
        lemma_echelon_from(m, h, w, col + 1, k, pv)
    }
}


pub(crate) proof fn lemma_combo_at_zero_coeffs(rows: Seq<Seq<bool>>, c: Seq<bool>, j: int)
    requires
        forall|k: int| 0 <= k < rows.len() ==> !#[trigger] c[k],
    ensures
        !combo_at(rows, c, j),
    decreases rows.len(),
{
    if rows.len() > 0 {
        lemma_combo_at_zero_coeffs(rows.drop_last(), c, j);
    }
}

/// Sums are linear in their coefficients.
pub(crate) proof fn lemma_combo_at_xor_coeffs(rows: Seq<Seq<bool>>, c1: Seq<bool>, c2: Seq<bool>, j: int)
    requires
        c1.len() == c2.len(),
        rows.len() <= c1.len(),
    ensures
        combo_at(rows, xor_rows(c1, c2), j) == (combo_at(rows, c1, j) != combo_at(rows, c2, j)),
    decreases rows.len(),
{
    if rows.len() > 0 {
        lemma_combo_at_xor_coeffs(rows.drop_last(), c1, c2, j);
    }
}

/// Each row lies in the row space.
pub(crate) proof fn lemma_row_in_space(rows: Seq<Seq<bool>>, k: int, width: nat)
    requires
        0 <= k < rows.len(),
        rows[k].len() == width,
    ensures
        row_space(rows, width).contains(rows[k]),
{
    let c0 = Seq::new(rows.len(), |i: int| false);
    let c = c0.update(k, true);
    assert forall|j: int| 0 <= j < width implies combo_at(rows, c, j) == rows[k][j] by {
        lemma_combo_at_update_coeff(rows, c0, k, true, j);
        lemma_combo_at_zero_coeffs(rows, c0, j);
    }
    assert(combo(rows, c, width) =~= rows[k]);
    assert(c.len() == rows.len());
}

/// Every sum of rows that lie in the row space of `b` lies there too.
proof fn lemma_combo_in_space(a: Seq<Seq<bool>>, b: Seq<Seq<bool>>, width: nat, c: Seq<bool>)
    requires
        forall|i: int| 0 <= i < a.len() ==> (#[trigger] a[i]).len() == width && row_space(b, width).contains(a[i]),
    ensures
        row_space(b, width).contains(combo(a, c, width)),
    decreases a.len(),
{
    if a.len() == 0 {
        let z = Seq::new(b.len(), |i: int| false);
        assert forall|j: int| 0 <= j < width implies combo_at(a, c, j) == combo_at(b, z, j) by {
            lemma_combo_at_zero_coeffs(b, z, j);
        }
        assert(combo(a, c, width) =~= combo(b, z, width));
        assert(z.len() == b.len());
    } else {
        let n = a.len();
        let a1 = a.drop_last();
        lemma_combo_in_space(a1, b, width, c);
        let d1 = choose|d: Seq<bool>| #[trigger] d.len() == b.len() && combo(a1, c, width) == combo(b, d, width);
        if c[n - 1] {
            assert(row_space(b, width).contains(a[n - 1]));
            let d2 = choose|d: Seq<bool>| #[trigger] d.len() == b.len() && a[n - 1] == combo(b, d, width);
            let d = xor_rows(d1, d2);
            assert forall|j: int| 0 <= j < width implies combo_at(a, c, j) == combo_at(b, d, j) by {
                lemma_combo_at_xor_coeffs(b, d1, d2, j);
                assert(combo(a1, c, width)[j] == combo(b, d1, width)[j]);
                assert(a[n - 1][j] == combo(b, d2, width)[j]);
            }
            assert(combo(a, c, width) =~= combo(b, d, width));
            assert(d.len() == b.len());
        } else {
            assert forall|j: int| 0 <= j < width implies combo_at(a, c, j) == combo_at(b, d1, j) by {
                assert(combo(a1, c, width)[j] == combo(b, d1, width)[j]);
            }
            assert(combo(a, c, width) =~= combo(b, d1, width));
        }
    }
}

/// Rows that lie in the row space of `b` span a part of it.
pub(crate) proof fn lemma_row_space_subset(a: Seq<Seq<bool>>, b: Seq<Seq<bool>>, width: nat)
    requires
        forall|i: int| 0 <= i < a.len() ==> (#[trigger] a[i]).len() == width && row_space(b, width).contains(a[i]),
    ensures
        row_space(a, width).subset_of(row_space(b, width)),
{
    assert forall|v: Seq<bool>| #[trigger] row_space(a, width).contains(v) implies row_space(b, width).contains(v) by {
        let c = choose|c: Seq<bool>| #[trigger] c.len() == a.len() && v == combo(a, c, width);
        lemma_combo_in_space(a, b, width, c);
    }
}

/// The columns of a reduced echelon matrix with `r` pivot rows span `2^r` vectors.
proof fn lemma_echelon_transpose_rank(e: Seq<Seq<bool>>, h: nat, w: nat, r: nat, pv: Seq<int>)
    requires
        e.len() == h,
        forall|i: int| 0 <= i < h ==> (#[trigger] e[i]).len() == w,
        reduced_echelon(e, w, r, pv),
    ensures
        has_rank(transpose(e, h, w), h, r),
{
    let t = transpose(e, h, w);
    let q = Seq::new(r, |i: int| Seq::new(h, |k: int| k == i));
    let qv = Seq::new(r, |i: int| i);
    assert(reduced_echelon(q, h, r, qv));
    lemma_reduced_echelon_rank(q, h, r, qv);
    assert forall|i: int| 0 <= i < q.len() implies (#[trigger] q[i]).len() == h && row_space(t, h).contains(q[i]) by {
        assert(t[pv[i]] =~= q[i]) by {
            assert forall|k: int| 0 <= k < h implies t[pv[i]][k] == q[i][k] by {
                assert(e[k][pv[i]] == (k == i));
            }
        }
        lemma_row_in_space(t, pv[i], h);
    }
    lemma_row_space_subset(q, t, h);
    assert forall|j: int| 0 <= j < t.len() implies (#[trigger] t[j]).len() == h && row_space(q, h).contains(t[j]) by {
        let d = Seq::new(r, |i: int| t[j][i]);
        assert forall|k: int| 0 <= k < h implies combo_at(q, d, k) == t[j][k] by {
            if k < r {
                lemma_combo_at_pivot(q, d, k, k);
            } else {
                lemma_combo_at_pivot(q, d, -1, k);
                assert(!e[k][j]);
            }
        }
        assert(combo(q, d, h) =~= t[j]);
        assert(d.len() == q.len());
    }
    lemma_row_space_subset(t, q, h);
    assert(row_space(t, h) =~= row_space(q, h));
}

/// Row rank equals column rank: a `h` by `w` matrix of rank `r` over GF(2) has a
/// transpose of rank `r` too.
pub proof fn lemma_rank_of_transpose(m: Seq<Seq<bool>>, h: nat, w: nat, r: nat)
    requires
        m.len() == h,
        forall|i: int| 0 <= i < h ==> (#[trigger] m[i]).len() == w,
        has_rank(m, w, r),
    ensures
        has_rank(transpose(m, h, w), h, r),
{
    assert(partial_echelon(m, h, w, 0, 0, Seq::empty()));
    let (e, r2, pv) = lemma_echelon_from(m, h, w, 0, 0, Seq::empty());
    lemma_reduced_echelon_rank(e, w, r2, pv);
    lemma_rank_unique(m, w, r, r2);
    lemma_echelon_transpose_rank(e, h, w, r2, pv);
    lemma_row_space_finite(transpose(m, h, w), h);
}

} // verus!
