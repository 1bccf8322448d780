use persistent_agent::{BoundaryMatrix, FiltrationOrder};

fn triangle_complex() -> FiltrationOrder {
    // three vertices, three edges and the triangle, as the Rips construction of a
    // right triangle with unit legs orders them
    FiltrationOrder {
        simplices: vec![
            vec![0],
            vec![1],
            vec![2],
            vec![0, 1],
            vec![0, 2],
            vec![1, 2],
            vec![0, 1, 2],
        ],
        num_vertices: 3,
    }
}

#[test]
fn test_boundary_matrix_triangle() {
    let complex = triangle_complex();
    assert_eq!(complex.simplices.len(), 7);
    let bm = BoundaryMatrix::from_complex(&complex, 1);
    assert_eq!(bm.rows, 3);
    assert_eq!(bm.cols, 3);
    for col in 0..3 {
        let nnz: usize = (0..3).filter(|&row| bm.get(row, col)).count();
        assert_eq!(nnz, 2);
    }
}

#[test]
fn test_boundary_matrix_rank() {
    let mut bm = BoundaryMatrix::zeros(3, 2);
    bm.set(0, 0, true);
    bm.set(1, 0, true);
    bm.set(1, 1, true);
    bm.set(2, 1, true);
    assert_eq!(bm.rank(), 2);
}

#[test]
fn zeros_are_all_false_with_given_shape() {
    let bm = BoundaryMatrix::zeros(2, 4);
    assert_eq!(bm.rows, 2);
    assert_eq!(bm.cols, 4);
    assert_eq!(bm.entries.len(), 2);
    for i in 0..2 {
        assert_eq!(bm.entries[i].len(), 4);
        for j in 0..4 {
            assert!(!bm.get(i, j));
        }
    }
    assert_eq!(bm.rank(), 0);
}

#[test]
fn get_reads_back_set() {
    let mut bm = BoundaryMatrix::zeros(2, 2);
    bm.set(1, 0, true);
    assert!(bm.get(1, 0));
    assert!(!bm.get(0, 0));
    assert!(!bm.get(0, 1));
    assert!(!bm.get(1, 1));
    bm.set(1, 0, false);
    assert!(!bm.get(1, 0));
}

#[test]
fn rank_of_identity_and_repeated_rows() {
    let mut id = BoundaryMatrix::zeros(3, 3);
    for i in 0..3 {
        id.set(i, i, true);
    }
    assert_eq!(id.rank(), 3);

    // rows 0 and 1 equal, row 2 their sum (zero): rank one
    let mut m = BoundaryMatrix::zeros(3, 3);
    m.set(0, 0, true);
    m.set(0, 2, true);
    m.set(1, 0, true);
    m.set(1, 2, true);
    assert_eq!(m.rank(), 1);

    // the three edges of a triangle: rows are vertices, each column has two ones,
    // and the columns sum to zero mod 2, so the rank is two
    let bm = BoundaryMatrix::from_complex(&triangle_complex(), 1);
    assert_eq!(bm.rank(), 2);
}

#[test]
fn rank_needs_row_swaps_and_is_bounded() {
    // the first column has its one in the last row
    let mut m = BoundaryMatrix::zeros(3, 2);
    m.set(2, 0, true);
    m.set(0, 1, true);
    assert_eq!(m.rank(), 2);
    let wide = BoundaryMatrix::zeros(1, 5);
    assert_eq!(wide.rank(), 0);
    let mut w = BoundaryMatrix::zeros(1, 5);
    w.set(0, 3, true);
    assert_eq!(w.rank(), 1);
    // the rank never exceeds the smaller dimension
    let mut full = BoundaryMatrix::zeros(2, 4);
    for i in 0..2 {
        for j in 0..4 {
            full.set(i, j, true);
        }
    }
    assert_eq!(full.rank(), 1);
}

#[test]
fn boundary_of_triangle_in_dimension_two() {
    let bm = BoundaryMatrix::from_complex(&triangle_complex(), 2);
    assert_eq!(bm.rows, 3);
    assert_eq!(bm.cols, 1);
    for row in 0..3 {
        assert!(bm.get(row, 0));
    }
    assert_eq!(bm.rank(), 1);
}

#[test]
fn boundary_sorts_faces_and_ignores_missing_ones() {
    // an upper simplex listed out of order still finds its faces, and a face that is
    // not among the rows contributes nothing
    let complex = FiltrationOrder {
        simplices: vec![vec![0], vec![2], vec![2, 0]],
        num_vertices: 3,
    };
    let bm = BoundaryMatrix::from_complex(&complex, 1);
    assert_eq!(bm.rows, 2);
    assert_eq!(bm.cols, 1);
    assert!(bm.get(0, 0));
    assert!(bm.get(1, 0));

    let partial = FiltrationOrder { simplices: vec![vec![0], vec![0, 1]], num_vertices: 2 };
    let bm = BoundaryMatrix::from_complex(&partial, 1);
    assert_eq!(bm.rows, 1);
    assert_eq!(bm.cols, 1);
    assert!(bm.get(0, 0));
}

#[test]
fn boundary_uses_last_copy_of_repeated_face() {
    let complex = FiltrationOrder {
        simplices: vec![vec![0], vec![1], vec![0], vec![0, 1]],
        num_vertices: 2,
    };
    let bm = BoundaryMatrix::from_complex(&complex, 1);
    assert_eq!(bm.rows, 3);
    assert!(!bm.get(0, 0));
    assert!(bm.get(1, 0));
    assert!(bm.get(2, 0));
}

#[test]
fn boundary_of_boundary_is_zero() {
    // a tetrahedron with all its faces
    let mut simplices = Vec::new();
    for v in 0..4 {
        simplices.push(vec![v]);
    }
    for a in 0..4 {
        for b in a + 1..4 {
            simplices.push(vec![a, b]);
        }
    }
    for a in 0..4 {
        for b in a + 1..4 {
            for c in b + 1..4 {
                simplices.push(vec![a, b, c]);
            }
        }
    }
    simplices.push(vec![0, 1, 2, 3]);
    let complex = FiltrationOrder { simplices, num_vertices: 4 };
    for dim in 1..3 {
        let a = BoundaryMatrix::from_complex(&complex, dim);
        let b = BoundaryMatrix::from_complex(&complex, dim + 1);
        assert_eq!(a.cols, b.rows);
        for r in 0..a.rows {
            for c in 0..b.cols {
                let count = (0..a.cols).filter(|&k| a.get(r, k) && b.get(k, c)).count();
                assert_eq!(count % 2, 0);
            }
        }
    }
}

#[test]
fn rank_of_transpose_is_the_same() {
    // a 2 by 4 matrix of rank 2 and its 4 by 2 transpose
    let rows = [[true, false, true, true], [false, true, true, false]];
    let mut a = BoundaryMatrix::zeros(2, 4);
    let mut t = BoundaryMatrix::zeros(4, 2);
    for i in 0..2 {
        for j in 0..4 {
            a.set(i, j, rows[i][j]);
            t.set(j, i, rows[i][j]);
        }
    }
    assert_eq!(a.rank(), 2);
    assert_eq!(t.rank(), 2);
}
