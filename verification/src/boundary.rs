use vstd::prelude::*;
use crate::complex::{
    ascending_seq, lemma_boundary_entries_are_vertex_faces, vertex_face,
    boundary_cells, face_parity, last_index_of, lemma_last_index_of, last_position_of, lemma_positions_in_range, of_size,
    positions_of_size, positions_with_len, sort_vertices, sorted_face, simplices_view, FiltrationOrder,
};
use crate::duality::lemma_rank_of_transpose;
use crate::reduction::transpose;
use crate::gf2::{add_row, has_rank, lemma_add_row_space, lemma_reduced_echelon_rank, lemma_swap_rows_space, reduced_echelon, row_space, swap_rows, xor_rows};

verus! {

/// The rows of a matrix held as `Vec`s, as a sequence of sequences.
pub open spec fn rows_of(m: Seq<Vec<bool>>) -> Seq<Seq<bool>> {
    m.map_values(|r: Vec<bool>| r@)
}

/// The matrix `cells` with entry `(i, j)` set to `val`.
pub open spec fn with_entry(cells: Seq<Seq<bool>>, i: int, j: int, val: bool) -> Seq<Seq<bool>> {
    cells.update(i, cells[i].update(j, val))
}

/// A copy of the top-left `rows` by `cols` block of a matrix held as `Vec`s.
fn copy_block(entries: &Vec<Vec<bool>>, rows: usize, cols: usize) -> (out: Vec<Vec<bool>>)
    requires
        rows <= entries@.len(),
        forall|k: int| 0 <= k < rows ==> cols <= (#[trigger] entries@[k])@.len(),
    ensures
        out@.len() == rows,
        forall|k: int| 0 <= k < rows ==> (#[trigger] out@[k])@ == entries@[k]@.take(cols as int),
{
    let mut out: Vec<Vec<bool>> = Vec::new();
    for i in 0..rows
        invariant
            out@.len() == i,
            rows <= entries@.len(),
            forall|k: int| 0 <= k < rows ==> cols <= (#[trigger] entries@[k])@.len(),
            forall|k: int| 0 <= k < i ==> (#[trigger] out@[k])@ == entries@[k]@.take(cols as int),
    {
        let mut row: Vec<bool> = Vec::new();
        for j in 0..cols
            invariant
                i < rows,
                rows <= entries@.len(),
                cols <= entries@[i as int]@.len(),
                row@.len() == j,
                forall|l: int| 0 <= l < j ==> row@[l] == entries@[i as int]@[l],
        {
            row.push(entries[i][j]);
        }
        assert(row@ =~= entries@[i as int]@.take(cols as int));
        out.push(row);
    }
    out
}

/// Boundary matrix over GF(2): `entries[i][j]` is the coefficient of row simplex `i`
/// in the boundary of column simplex `j`.
#[derive(Clone, Debug)]
pub struct BoundaryMatrix {
    /// Number of rows (lower-dimensional simplices).
    pub rows: usize,
    /// Number of columns (higher-dimensional simplices).
    pub cols: usize,
    /// Entries, one `Vec<bool>` per row.
    pub entries: Vec<Vec<bool>>,
}

impl BoundaryMatrix {
    /// The entries as a sequence of rows.
    pub open spec fn cells(&self) -> Seq<Seq<bool>> {
        rows_of(self.entries@)
    }

    /// The entries hold at least `rows` rows of at least `cols` entries each.
    pub open spec fn covers(&self) -> bool {
        &&& self.rows <= self.entries@.len()
        &&& forall|i: int| 0 <= i < self.rows ==> self.cols <= (#[trigger] self.entries@[i])@.len()
    }

    /// The top-left `rows` by `cols` block of the entries: the matrix proper.
    pub open spec fn block(&self) -> Seq<Seq<bool>> {
        Seq::new(self.rows as nat, |i: int| self.cells()[i].take(self.cols as int))
    }

    /// The entries have `rows` rows of `cols` entries each.
    pub open spec fn well_formed(&self) -> bool {
        &&& self.entries@.len() == self.rows
        &&& forall|i: int| 0 <= i < self.rows ==> (#[trigger] self.entries@[i])@.len() == self.cols
    }

    /// Create a zero boundary matrix.
    pub fn zeros(rows: usize, cols: usize) -> (m: Self)
        ensures
            m.well_formed(),
            m.rows == rows,
            m.cols == cols,
            forall|i: int, j: int| 0 <= i < rows && 0 <= j < cols ==> !m.cells()[i][j],
    {
        let mut entries: Vec<Vec<bool>> = Vec::new();
        for i in 0..rows
            invariant
                entries@.len() == i,
                forall|k: int| 0 <= k < i ==> (#[trigger] entries@[k])@.len() == cols,
                forall|k: int, j: int| 0 <= k < i && 0 <= j < cols ==> !#[trigger] entries@[k]@[j],
        {
            let mut row: Vec<bool> = Vec::new();
            for j in 0..cols
                invariant
                    row@.len() == j,
                    forall|l: int| 0 <= l < j ==> !row@[l],
            {
                row.push(false);
            }
            entries.push(row);
        }
        BoundaryMatrix { rows, cols, entries }
    }

    /// Set entry `(i, j)` to `val`.
    pub fn set(&mut self, i: usize, j: usize, val: bool)
        requires
            i < old(self).entries@.len(),
            j < old(self).entries@[i as int]@.len(),
        ensures
            old(self).well_formed() ==> final(self).well_formed(),
            final(self).rows == old(self).rows,
            final(self).cols == old(self).cols,
            final(self).cells() == with_entry(old(self).cells(), i as int, j as int, val),
    {
        let mut row: Vec<bool> = Vec::new();
        self.entries.set_and_swap(i, &mut row);
        row.set(j, val);
        self.entries.set(i, row);
        proof {
            assert(self.cells() =~= with_entry(old(self).cells(), i as int, j as int, val));
        }
    }

    /// Get entry `(i, j)`.
    pub fn get(&self, i: usize, j: usize) -> (b: bool)
        requires
            i < self.entries@.len(),
            j < self.entries@[i as int]@.len(),
        ensures
            b == self.cells()[i as int][j as int],
    {
        self.entries[i][j]
    }

    /// Rank over GF(2) of the `rows` by `cols` matrix, by Gauss-Jordan elimination on a
    /// copy of the entries. The result `r` is the rank: the row space has exactly `2^r`
    /// vectors, and so has the column space.
    pub fn rank(&self) -> (r: usize)
        requires
            self.covers(),
        ensures
            r <= self.rows,
            r <= self.cols,
            has_rank(self.block(), self.cols as nat, r as nat),
            has_rank(transpose(self.block(), self.rows as nat, self.cols as nat), self.rows as nat, r as nat),
    {
        let mut matrix = copy_block(&self.entries, self.rows, self.cols);
        let rows = self.rows;
        let cols = self.cols;
        let mut rank: usize = 0;
        let ghost mut pv: Seq<int> = Seq::empty();
        let ghost orig = self.block();
        proof {
            assert(rows_of(matrix@) =~= orig);
        }
        for col in 0..cols
            invariant
                rows == self.rows,
                cols == self.cols,
                orig == self.block(),
                matrix@.len() == rows,
                forall|k: int| 0 <= k < rows ==> (#[trigger] matrix@[k])@.len() == cols,
                rank <= col,
                rank <= rows,
                pv.len() == rank,
                forall|i: int| 0 <= i < rank ==> 0 <= #[trigger] pv[i] < col,
                forall|i: int, k: int|
                    0 <= i < rank && 0 <= k < rows ==> (#[trigger] matrix@[k])@[#[trigger] pv[i]] == (k
                        == i),
                forall|k: int, j: int| rank <= k < rows && 0 <= j < col ==> !#[trigger] matrix@[k]@[j],
                row_space(rows_of(matrix@), cols as nat) == row_space(orig, cols as nat),
        {
            let mut p = rank;
            while p < rows && !matrix[p][col]
                invariant
                    rank <= p <= rows,
                    col < cols,
                    matrix@.len() == rows,
                    forall|k: int| 0 <= k < rows ==> (#[trigger] matrix@[k])@.len() == cols,
                    forall|q: int| rank <= q < p ==> !#[trigger] matrix@[q]@[col as int],
                decreases rows - p,
            {
                p += 1;
            }
            if p < rows {
                if p != rank {
                    let ghost before = rows_of(matrix@);
                    let mut a: Vec<bool> = Vec::new();
                    matrix.set_and_swap(rank, &mut a);
                    matrix.set_and_swap(p, &mut a);
                    matrix.set(rank, a);
                    proof {
                        assert(rows_of(matrix@) =~= swap_rows(before, rank as int, p as int));
                        lemma_swap_rows_space(before, rank as int, p as int, cols as nat);
                    }
                }
                let ghost pivot = matrix@[rank as int]@;
                for row in 0..rows
                    invariant
                        rows == self.rows,
                        cols == self.cols,
                        orig == self.block(),
                        col < cols,
                        rank < rows,
                        rank <= col,
                        pv.len() == rank,
                        matrix@.len() == rows,
                        forall|k: int| 0 <= k < rows ==> (#[trigger] matrix@[k])@.len() == cols,
                        matrix@[rank as int]@ == pivot,
                        pivot[col as int],
                        forall|j: int| 0 <= j < col ==> !#[trigger] pivot[j],
                        forall|i: int| 0 <= i < rank ==> 0 <= #[trigger] pv[i] < col,
                        forall|i: int, k: int|
                            0 <= i < rank && 0 <= k < rows ==> (#[trigger] matrix@[k])@[#[trigger] pv[i]]
                                == (k == i),
                        forall|k: int, j: int|
                            rank < k < rows && 0 <= j < col ==> !#[trigger] matrix@[k]@[j],
                        forall|k: int| 0 <= k < row ==> (#[trigger] matrix@[k])@[col as int] == (k == rank),
                        row_space(rows_of(matrix@), cols as nat) == row_space(orig, cols as nat),
                {
                    if row != rank && matrix[row][col] {
                        let ghost before = rows_of(matrix@);
                        let mut cur: Vec<bool> = Vec::new();
                        matrix.set_and_swap(row, &mut cur);
                        for c in 0..cols
                            invariant
                                cur@.len() == cols,
                                row < rows,
                                rank < rows,
                                row != rank,
                                matrix@.len() == rows,
                                before.len() == rows,
                                matrix@[rank as int]@ == pivot,
                                pivot == before[rank as int],
                                pivot.len() == cols,
                                forall|l: int| 0 <= l < c ==> #[trigger] cur@[l] == (before[row as int][l] != pivot[l]),
                                forall|l: int| c <= l < cols ==> #[trigger] cur@[l] == before[row as int][l],
                        {
                            let b = cur[c] != matrix[rank][c];
                            cur.set(c, b);
                        }
                        matrix.set(row, cur);
                        proof {
                            assert(rows_of(matrix@) =~= add_row(before, rank as int, row as int)) by {
                                assert(rows_of(matrix@)[row as int] =~= xor_rows(before[row as int], before[rank as int]));
                            }
                            lemma_add_row_space(before, rank as int, row as int, cols as nat);
                        }
                    }
                }
                proof {
                    pv = pv.push(col as int);
                }
                rank += 1;
            }
        }
        proof {
            let m = rows_of(matrix@);
            assert(reduced_echelon(m, cols as nat, rank as nat, pv));
            lemma_reduced_echelon_rank(m, cols as nat, rank as nat, pv);
            let b = self.block();
            assert(row_space(m, cols as nat) == row_space(b, cols as nat));
            assert forall|i: int| 0 <= i < rows implies (#[trigger] b[i]).len() == cols by {}
            lemma_rank_of_transpose(b, rows as nat, cols as nat, rank as nat);
        }
        rank
    }
}

impl BoundaryMatrix {
    /// Build the boundary matrix of a filtered complex for a given dimension.
    /// Columns are the simplices with `dim + 1` vertices, rows those with `dim` vertices,
    /// both in filtration order; each column holds the mod-2 count of its faces.
    pub fn from_complex(complex: &FiltrationOrder, dim: usize) -> (bm: Self)
        requires
            dim < usize::MAX,
        ensures
            bm.well_formed(),
            bm.rows == of_size(complex.view_simplices(), dim as nat).len(),
            bm.cols == of_size(complex.view_simplices(), dim as nat + 1).len(),
            bm.cells() == boundary_cells(complex.view_simplices(), dim as nat),
            // with the rows listed in ascending order and without repeats, an entry is set
            // exactly when the row simplex holds the vertices of the column simplex but
            // one, whatever order the column simplex lists them in
            of_size(complex.view_simplices(), dim as nat).no_duplicates() ==> forall|r: int, c: int|
                0 <= r < bm.rows && 0 <= c < bm.cols && ascending_seq(of_size(complex.view_simplices(), dim as nat)[r])
                    && of_size(complex.view_simplices(), dim as nat + 1)[c].no_duplicates() ==> #[trigger] bm.cells()[r][c]
                    == vertex_face(
                    of_size(complex.view_simplices(), dim as nat)[r],
                    of_size(complex.view_simplices(), dim as nat + 1)[c],
                ),
    {
        let simplices = &complex.simplices;
        let ghost sv = complex.view_simplices();
        let ghost low = of_size(sv, dim as nat);
        let ghost up = of_size(sv, dim as nat + 1);
        let lower = positions_with_len(simplices, dim);
        let upper = positions_with_len(simplices, dim + 1);
        proof {
            lemma_positions_in_range(sv, dim as nat + 1);
            assert forall|c: int| 0 <= c < upper@.len() implies #[trigger] up[c] == simplices@[upper@[c] as int]@ by {
                assert(upper@[c] as int == positions_of_size(sv, dim as nat + 1)[c]);
            }
            assert forall|c: int| 0 <= c < upper@.len() implies upper@[c] < simplices@.len() by {
                assert(upper@[c] as int == positions_of_size(sv, dim as nat + 1)[c]);
            }
        }
        let mut bm = Self::zeros(lower.len(), upper.len());
        let mut col: usize = 0;
        while col < upper.len()
            invariant
                sv == complex.view_simplices(),
                simplices == &complex.simplices,
                low == of_size(sv, dim as nat),
                up == of_size(sv, dim as nat + 1),
                dim < usize::MAX,
                col <= upper@.len(),
                lower@.len() == positions_of_size(simplices_view(simplices@), dim as nat).len(),
                forall|i: int|
                    0 <= i < lower@.len() ==> lower@[i] as int == #[trigger] positions_of_size(
                        simplices_view(simplices@),
                        dim as nat,
                    )[i],
                up.len() == upper@.len(),
                low.len() == lower@.len(),
                forall|c: int| 0 <= c < upper@.len() ==> #[trigger] upper@[c] < simplices@.len(),
                forall|c: int| 0 <= c < upper@.len() ==> #[trigger] up[c] == simplices@[upper@[c] as int]@,
                bm.well_formed(),
                bm.rows == lower@.len(),
                bm.cols == upper@.len(),
                forall|r: int, c: int|
                    0 <= r < bm.rows && 0 <= c < bm.cols ==> #[trigger] bm.cells()[r][c] == if c < col {
                        face_parity(low, up[c], r, up[c].len() as int)
                    } else {
                        false
                    },
            decreases upper@.len() - col,
        {
            let simplex = &simplices[upper[col]];
            let n = simplex.len();
            let mut skip: usize = 0;
            while skip < n
                invariant
                    sv == complex.view_simplices(),
                    low == of_size(sv, dim as nat),
                    up == of_size(sv, dim as nat + 1),
                    col < upper@.len(),
                    skip <= n,
                    n == simplex@.len(),
                    simplex@ == up[col as int],
                    lower@.len() == positions_of_size(simplices_view(simplices@), dim as nat).len(),
                    forall|i: int|
                        0 <= i < lower@.len() ==> lower@[i] as int == #[trigger] positions_of_size(
                            simplices_view(simplices@),
                            dim as nat,
                        )[i],
                    sv == simplices_view(simplices@),
                    bm.well_formed(),
                    bm.rows == lower@.len(),
                    bm.cols == upper@.len(),
                    low.len() == lower@.len(),
                    forall|r: int, c: int|
                        0 <= r < bm.rows && 0 <= c < bm.cols ==> #[trigger] bm.cells()[r][c] == if c < col {
                            face_parity(low, up[c], r, up[c].len() as int)
                        } else if c == col {
                            face_parity(low, up[c], r, skip as int)
                        } else {
                            false
                        },
                decreases n - skip,
            {
                let mut face = simplex.clone();
                assert(face@ =~= simplex@);
                face.remove(skip);
                sort_vertices(&mut face);
                assert(face@ == sorted_face(up[col as int], skip as int));
                let found = last_position_of(simplices, &lower, dim, &face);
                proof {
                    lemma_last_index_of(low, face@);
                }
                let ghost before = bm.cells();
                match found {
                    Some(row) => {
                        let b = bm.get(row, col);
                        bm.set(row, col, !b);
                    },
                    None => {},
                }
                assert forall|r: int, c: int| 0 <= r < bm.rows && 0 <= c < bm.cols implies #[trigger] bm.cells()[r][c]
                    == if c < col {
                    face_parity(low, up[c], r, up[c].len() as int)
                } else if c == col {
                    face_parity(low, up[c], r, skip + 1)
                } else {
                    false
                } by {
                    assert(before[r][c] == bm.cells()[r][c] || (found == Some(r as usize) && c == col));
                }
                skip = skip + 1;
            }
            col = col + 1;
        }
        proof {
            assert(bm.cells() =~= boundary_cells(sv, dim as nat)) by {
                assert forall|r: int| 0 <= r < bm.rows implies bm.cells()[r] =~= boundary_cells(sv, dim as nat)[r] by {
                    assert forall|c: int| 0 <= c < bm.cols implies bm.cells()[r][c] == boundary_cells(sv, dim as nat)[r][c] by {
                        assert(bm.cells()[r][c] == face_parity(low, up[c], r, up[c].len() as int));
                    }
                }
            }
            if low.no_duplicates() {
                assert forall|r: int, c: int|
                    0 <= r < bm.rows && 0 <= c < bm.cols && ascending_seq(low[r]) && up[c].no_duplicates() implies
                    #[trigger] bm.cells()[r][c] == vertex_face(low[r], up[c]) by {
                    lemma_boundary_entries_are_vertex_faces(sv, dim as nat, r, c);
                }
            }
        }
        bm
    }
}

/// Reading an entry after writing it gives the written value; every other entry reads
/// as before.
pub proof fn lemma_get_after_set(m: BoundaryMatrix, i: int, j: int, val: bool, r: int, c: int)
    requires
        m.well_formed(),
        0 <= i < m.rows,
        0 <= j < m.cols,
        0 <= r < m.rows,
        0 <= c < m.cols,
    ensures
        with_entry(m.cells(), i, j, val)[r][c] == if r == i && c == j {
            val
        } else {
            m.cells()[r][c]
        },
{
}

/// The zero matrix has rank zero.
pub proof fn lemma_zero_matrix_rank(m: BoundaryMatrix)
    requires
        m.well_formed(),
        forall|i: int, j: int| 0 <= i < m.rows && 0 <= j < m.cols ==> !m.cells()[i][j],
    ensures
        has_rank(m.cells(), m.cols as nat, 0),
        has_rank(m.block(), m.cols as nat, 0),
{
    lemma_block_of_well_formed(m);
    let pv = Seq::<int>::empty();
    assert(reduced_echelon(m.cells(), m.cols as nat, 0, pv));
    lemma_reduced_echelon_rank(m.cells(), m.cols as nat, 0, pv);
}

/// For a well-formed matrix the block is the whole of the entries.
pub proof fn lemma_block_of_well_formed(m: BoundaryMatrix)
    requires
        m.well_formed(),
    ensures
        m.covers(),
        m.block() == m.cells(),
{
    assert forall|i: int| 0 <= i < m.rows implies m.block()[i] == m.cells()[i] by {
        assert(m.cells()[i].take(m.cols as int) =~= m.cells()[i]);
    }
    assert(m.block() =~= m.cells());
}

} // verus!
