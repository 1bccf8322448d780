//! Linear algebra over GF(2): combinations of rows, the row space, and the
//! facts about it that Gaussian elimination relies on.
use vstd::prelude::*;
use vstd::relations::injective_on;
use vstd::set_lib::*;

verus! {

/// `2^k`.
pub open spec fn two_pow(k: nat) -> nat
    decreases k,
{
    if k == 0 {
        1
    } else {
        2 * two_pow((k - 1) as nat)
    }
}

/// Entry `j` of the GF(2) sum of the rows `rows[i]` with `coeffs[i]` set.
pub open spec fn combo_at(rows: Seq<Seq<bool>>, coeffs: Seq<bool>, j: int) -> bool
    decreases rows.len(),
{
    if rows.len() == 0 {
        false
    } else {
        combo_at(rows.drop_last(), coeffs, j) != (coeffs[rows.len() - 1] && rows.last()[j])
    }
}

/// The GF(2) sum of the rows selected by `coeffs`, as a vector of length `width`.
pub open spec fn combo(rows: Seq<Seq<bool>>, coeffs: Seq<bool>, width: nat) -> Seq<bool> {
    Seq::new(width, |j: int| combo_at(rows, coeffs, j))
}

/// The row space of `rows` over GF(2): every sum of a subset of the rows.
pub open spec fn row_space(rows: Seq<Seq<bool>>, width: nat) -> Set<Seq<bool>> {
    Set::new(
        |v: Seq<bool>|
            exists|c: Seq<bool>| #[trigger] c.len() == rows.len() && v == combo(rows, c, width),
    )
}

/// `r` is the rank of `rows` over GF(2): the row space is finite and has `2^r` vectors.
pub open spec fn has_rank(rows: Seq<Seq<bool>>, width: nat, r: nat) -> bool {
    &&& row_space(rows, width).finite()
    &&& row_space(rows, width).len() == two_pow(r)
}

/// Entrywise sum of two rows over GF(2).
pub open spec fn xor_rows(x: Seq<bool>, y: Seq<bool>) -> Seq<bool> {
    Seq::new(x.len(), |k: int| x[k] != y[k])
}

/// The elementary row operation "add row `a` into row `b`".
pub open spec fn add_row(rows: Seq<Seq<bool>>, a: int, b: int) -> Seq<Seq<bool>> {
    rows.update(b, xor_rows(rows[b], rows[a]))
}

/// The elementary row operation "swap rows `a` and `b`".
pub open spec fn swap_rows(rows: Seq<Seq<bool>>, a: int, b: int) -> Seq<Seq<bool>> {
    rows.update(a, rows[b]).update(b, rows[a])
}

/// All coefficient vectors of length `k`.
pub open spec fn coeff_vectors(k: nat) -> Set<Seq<bool>> {
    Set::new(|c: Seq<bool>| c.len() == k)
}

/// A sum of rows only reads the coefficients of existing rows.
pub proof fn lemma_combo_at_coeff_prefix(rows: Seq<Seq<bool>>, c1: Seq<bool>, c2: Seq<bool>, j: int)
    requires
        forall|k: int| 0 <= k < rows.len() ==> c1[k] == c2[k],
    ensures
        combo_at(rows, c1, j) == combo_at(rows, c2, j),
    decreases rows.len(),
{
    if rows.len() > 0 {
        lemma_combo_at_coeff_prefix(rows.drop_last(), c1, c2, j);
    }
}

/// Replacing one row changes a sum by the difference of the old and new row.
pub proof fn lemma_combo_at_update_row(rows: Seq<Seq<bool>>, c: Seq<bool>, i: int, x: Seq<bool>, j: int)
    requires
        0 <= i < rows.len(),
    ensures
        combo_at(rows.update(i, x), c, j) == (combo_at(rows, c, j) != (c[i] && (rows[i][j] != x[j]))),
    decreases rows.len(),
{
    let n = rows.len();
    if i == n - 1 {
        assert(rows.update(i, x).drop_last() =~= rows.drop_last());
    } else {
        assert(rows.update(i, x).drop_last() =~= rows.drop_last().update(i, x));
        lemma_combo_at_update_row(rows.drop_last(), c, i, x, j);
    }
}

/// Flipping one coefficient changes a sum by that row.
pub proof fn lemma_combo_at_update_coeff(rows: Seq<Seq<bool>>, c: Seq<bool>, i: int, b: bool, j: int)
    requires
        0 <= i < rows.len(),
        rows.len() <= c.len(),
    ensures
        combo_at(rows, c.update(i, b), j) == (combo_at(rows, c, j) != ((c[i] != b) && rows[i][j])),
    decreases rows.len(),
{
    let n = rows.len();
    if i == n - 1 {
        lemma_combo_at_coeff_prefix(rows.drop_last(), c.update(i, b), c, j);
        assert(c.update(i, b)[n - 1] == b);
    } else {
        lemma_combo_at_update_coeff(rows.drop_last(), c, i, b, j);
        assert(c.update(i, b)[n - 1] == c[n - 1]);
    }
}

/// Adding one row into another keeps the row space within the old one.
proof fn lemma_add_row_space_subset(rows: Seq<Seq<bool>>, a: int, b: int, width: nat)
    requires
        0 <= a < rows.len(),
        0 <= b < rows.len(),
        a != b,
        rows[b].len() == width,
    ensures
        row_space(add_row(rows, a, b), width).subset_of(row_space(rows, width)),
{
    let rows2 = add_row(rows, a, b);
    assert forall|v: Seq<bool>| #[trigger] row_space(rows2, width).contains(v) implies row_space(
        rows,
        width,
    ).contains(v) by {
        let c = choose|c: Seq<bool>| #[trigger] c.len() == rows2.len() && v == combo(rows2, c, width);
        let c2 = c.update(a, c[a] != c[b]);
        assert forall|j: int| 0 <= j < width implies combo_at(rows2, c, j) == combo_at(rows, c2, j) by {
            lemma_combo_at_update_row(rows, c, b, xor_rows(rows[b], rows[a]), j);
            lemma_combo_at_update_coeff(rows, c, a, c[a] != c[b], j);
        }
        assert(v =~= combo(rows, c2, width));
        assert(c2.len() == rows.len());
    }
}

/// Adding one row into another leaves the row space unchanged.
pub proof fn lemma_add_row_space(rows: Seq<Seq<bool>>, a: int, b: int, width: nat)
    requires
        0 <= a < rows.len(),
        0 <= b < rows.len(),
        a != b,
        rows[a].len() == width,
        rows[b].len() == width,
    ensures
        row_space(add_row(rows, a, b), width) == row_space(rows, width),
{
    let rows2 = add_row(rows, a, b);
    lemma_add_row_space_subset(rows, a, b, width);
    lemma_add_row_space_subset(rows2, a, b, width);
    assert(add_row(rows2, a, b) =~= rows) by {
        assert(xor_rows(xor_rows(rows[b], rows[a]), rows[a]) =~= rows[b]);
    }
    assert(row_space(rows2, width) =~= row_space(rows, width));
}

/// Swapping two rows leaves the row space unchanged.
pub proof fn lemma_swap_rows_space(rows: Seq<Seq<bool>>, a: int, b: int, width: nat)
    requires
        0 <= a < rows.len(),
        0 <= b < rows.len(),
        forall|k: int| 0 <= k < rows.len() ==> (#[trigger] rows[k]).len() == width,
    ensures
        row_space(swap_rows(rows, a, b), width) == row_space(rows, width),
{
    if a == b {
        assert(swap_rows(rows, a, b) =~= rows);
    } else {
        // a swap is three row additions
        let r1 = add_row(rows, a, b);
        let r2 = add_row(r1, b, a);
        let r3 = add_row(r2, a, b);
        lemma_add_row_space(rows, a, b, width);
        lemma_add_row_space(r1, b, a, width);
        lemma_add_row_space(r2, a, b, width);
        assert(r3 =~= swap_rows(rows, a, b)) by {
            assert(r3[a] =~= rows[b]);
            assert(r3[b] =~= rows[a]);
        }
    }
}

/// There are `2^k` coefficient vectors of length `k`.
pub proof fn lemma_coeff_vectors_len(k: nat)
    ensures
        coeff_vectors(k).finite(),
        coeff_vectors(k).len() == two_pow(k),
    decreases k,
{
    if k == 0 {
        assert forall|c: Seq<bool>| #[trigger] coeff_vectors(0).contains(c) implies c == Seq::<
            bool,
        >::empty() by {
            assert(c =~= Seq::<bool>::empty());
        }
        assert(coeff_vectors(0) =~= Set::empty().insert(Seq::<bool>::empty()));
    } else {
        let prev = coeff_vectors((k - 1) as nat);
        lemma_coeff_vectors_len((k - 1) as nat);
        let f0 = |c: Seq<bool>| c.push(false);
        let f1 = |c: Seq<bool>| c.push(true);
        let s0 = prev.map(f0);
        let s1 = prev.map(f1);
        assert(injective_on(f0, prev)) by {
            assert forall|x: Seq<bool>, y: Seq<bool>|
                prev.contains(x) && prev.contains(y) && #[trigger] f0(x) == #[trigger] f0(y) implies x
                == y by {
                assert(x =~= f0(x).drop_last());
                assert(y =~= f0(y).drop_last());
            }
        }
        assert(injective_on(f1, prev)) by {
            assert forall|x: Seq<bool>, y: Seq<bool>|
                prev.contains(x) && prev.contains(y) && #[trigger] f1(x) == #[trigger] f1(y) implies x
                == y by {
                assert(x =~= f1(x).drop_last());
                assert(y =~= f1(y).drop_last());
            }
        }
        lemma_map_size(prev, s0, f0);
        lemma_map_size(prev, s1, f1);
        assert(s0.disjoint(s1)) by {
            assert forall|v: Seq<bool>| !(s0.contains(v) && s1.contains(v)) by {
                if s0.contains(v) && s1.contains(v) {
                    let x = choose|x: Seq<bool>| prev.contains(x) && f0(x) == v;
                    let y = choose|y: Seq<bool>| prev.contains(y) && f1(y) == v;
                    assert(f0(x)[x.len() as int] != f1(y)[y.len() as int]);
                }
            }
        }
        assert(coeff_vectors(k) =~= s0 + s1) by {
            assert forall|c: Seq<bool>| #[trigger] coeff_vectors(k).contains(c) implies (s0
                + s1).contains(c) by {
                let d = c.drop_last();
                assert(prev.contains(d));
                if c.last() {
                    assert(c =~= f1(d));
                    assert(s1.contains(f1(d)));
                } else {
                    assert(c =~= f0(d));
                    assert(s0.contains(f0(d)));
                }
            }
        }
        lemma_set_disjoint_lens(s0, s1);
    }
}

/// Rows that are zero in column `j` beyond the first `r` do not contribute to it.
proof fn lemma_combo_at_zero_tail(rows: Seq<Seq<bool>>, c: Seq<bool>, r: int, j: int)
    requires
        0 <= r <= rows.len(),
        forall|k: int| r <= k < rows.len() ==> !(#[trigger] rows[k])[j],
    ensures
        combo_at(rows, c, j) == combo_at(rows.take(r), c, j),
    decreases rows.len(),
{
    if rows.len() == r {
        assert(rows.take(r) =~= rows);
    } else {
        assert(rows.drop_last().take(r) =~= rows.take(r));
        lemma_combo_at_zero_tail(rows.drop_last(), c, r, j);
    }
}

/// In a column that is zero except in row `i`, a sum reads the coefficient of row `i`.
pub(crate) proof fn lemma_combo_at_pivot(rows: Seq<Seq<bool>>, c: Seq<bool>, i: int, p: int)
    requires
        forall|k: int| 0 <= k < rows.len() ==> (#[trigger] rows[k])[p] == (k == i),
    ensures
        combo_at(rows, c, p) == (0 <= i < rows.len() && c[i]),
    decreases rows.len(),
{
    if rows.len() > 0 {
        lemma_combo_at_pivot(rows.drop_last(), c, i, p);
    }
}

/// A matrix in reduced echelon form: the first `r` rows have pivot columns `pv`, each
/// pivot column being zero outside its pivot row, and the remaining rows are zero.
pub open spec fn reduced_echelon(rows: Seq<Seq<bool>>, width: nat, r: nat, pv: Seq<int>) -> bool {
    &&& r <= rows.len()
    &&& pv.len() == r
    &&& forall|i: int| 0 <= i < r ==> 0 <= #[trigger] pv[i] < width
    &&& forall|i: int, k: int|
        0 <= i < r && 0 <= k < rows.len() ==> (#[trigger] rows[k])[#[trigger] pv[i]] == (k == i)
    &&& forall|k: int, j: int| r <= k < rows.len() && 0 <= j < width ==> !#[trigger] rows[k][j]
}

/// A reduced echelon matrix with `r` pivot rows has rank `r`.
pub proof fn lemma_reduced_echelon_rank(rows: Seq<Seq<bool>>, width: nat, r: nat, pv: Seq<int>)
    requires
        reduced_echelon(rows, width, r, pv),
    ensures
        has_rank(rows, width, r),
{
    let top = rows.take(r as int);
    let f = |c: Seq<bool>| combo(top, c, width);
    let cs = coeff_vectors(r);
    // every sum of all rows is a sum of the pivot rows
    assert forall|c: Seq<bool>, j: int| 0 <= j < width implies combo_at(rows, c, j) == combo_at(top, c, j) by {
        lemma_combo_at_zero_tail(rows, c, r as int, j);
    }
    assert(row_space(rows, width) =~= cs.map(f)) by {
        assert forall|v: Seq<bool>| row_space(rows, width).contains(v) implies #[trigger] cs.map(f).contains(v) by {
            let c = choose|c: Seq<bool>| #[trigger] c.len() == rows.len() && v == combo(rows, c, width);
            let d = c.take(r as int);
            assert forall|j: int| 0 <= j < width implies combo_at(top, c, j) == combo_at(top, d, j) by {
                lemma_combo_at_coeff_prefix(top, c, d, j);
            }
            assert(v =~= f(d));
            assert(cs.contains(d));
        }
        assert forall|v: Seq<bool>| #[trigger] cs.map(f).contains(v) implies row_space(rows, width).contains(v) by {
            let d = choose|d: Seq<bool>| cs.contains(d) && f(d) == v;
            let c = d + Seq::new((rows.len() - r) as nat, |k: int| false);
            assert forall|j: int| 0 <= j < width implies combo_at(top, c, j) == combo_at(top, d, j) by {
                lemma_combo_at_coeff_prefix(top, c, d, j);
            }
            assert(v =~= combo(rows, c, width));
            assert(c.len() == rows.len());
        }
    }
    // distinct coefficient vectors give distinct sums: the pivot columns read them back
    assert(injective_on(f, cs)) by {
        assert forall|x: Seq<bool>, y: Seq<bool>|
            cs.contains(x) && cs.contains(y) && #[trigger] f(x) == #[trigger] f(y) implies x == y by {
            assert forall|i: int| 0 <= i < r implies x[i] == y[i] by {
                let p = pv[i];
                assert forall|k: int| 0 <= k < top.len() implies (#[trigger] top[k])[p] == (k == i) by {
                    assert(rows[k][pv[i]] == (k == i));
                }
                lemma_combo_at_pivot(top, x, i, p);
                lemma_combo_at_pivot(top, y, i, p);
                assert(f(x)[p] == f(y)[p]);
            }
            assert(x =~= y);
        }
    }
    lemma_coeff_vectors_len(r);
    lemma_map_size(cs, cs.map(f), f);
}

proof fn lemma_two_pow_increasing(a: nat, b: nat)
    requires
        a < b,
    ensures
        two_pow(a) < two_pow(b),
    decreases b,
{
    if b > a + 1 {
        lemma_two_pow_increasing(a, (b - 1) as nat);
    }
    if b > 0 {
        lemma_two_pow_positive((b - 1) as nat);
    }
}

proof fn lemma_two_pow_positive(a: nat)
    ensures
        two_pow(a) >= 1,
    decreases a,
{
    if a > 0 {
        lemma_two_pow_positive((a - 1) as nat);
    }
}

/// The rank is well defined: a matrix has at most one rank.
pub proof fn lemma_rank_unique(rows: Seq<Seq<bool>>, width: nat, r1: nat, r2: nat)
    requires
        has_rank(rows, width, r1),
        has_rank(rows, width, r2),
    ensures
        r1 == r2,
{
    if r1 < r2 {
        lemma_two_pow_increasing(r1, r2);
    } else if r2 < r1 {
        lemma_two_pow_increasing(r2, r1);
    }
}

} // verus!
