use persistent_agent::{compute_barcode_shapes, merge_components, BarShape, BoundaryMatrix, FiltrationOrder};

#[test]
fn test_compute_barcodes_line() {
    // three points on a line: edges 0-1 and 1-2 at distance one, 0-2 at two
    let complex = FiltrationOrder {
        simplices: vec![vec![0], vec![1], vec![2], vec![0, 1], vec![1, 2], vec![0, 2]],
        num_vertices: 3,
    };
    let barcodes = compute_barcode_shapes(&complex, &vec![3, 4, 5], 1);
    let h0 = barcodes.iter().find(|b| b.dim == 0).unwrap();
    let essential = h0.bars.iter().filter(|b| b.death.is_none()).count();
    assert_eq!(essential, 1);
}

#[test]
fn line_barcodes_in_full() {
    let complex = FiltrationOrder {
        simplices: vec![vec![0], vec![1], vec![2], vec![0, 1], vec![1, 2], vec![0, 2]],
        num_vertices: 3,
    };
    let barcodes = compute_barcode_shapes(&complex, &vec![3, 4, 5], 1);
    assert_eq!(barcodes.len(), 2);
    assert_eq!(
        barcodes[0].bars,
        vec![
            BarShape { birth: None, death: Some(3) },
            BarShape { birth: None, death: Some(4) },
            BarShape { birth: None, death: None },
        ]
    );
    // the edge 0-2 closes a loop, which no triangle fills
    assert_eq!(barcodes[1].dim, 1);
    assert_eq!(barcodes[1].bars, vec![BarShape { birth: Some(5), death: None }]);
}

#[test]
fn filled_triangle_has_no_loop() {
    let complex = FiltrationOrder {
        simplices: vec![
            vec![0],
            vec![1],
            vec![2],
            vec![0, 1],
            vec![0, 2],
            vec![1, 2],
            vec![0, 1, 2],
        ],
        num_vertices: 3,
    };
    let barcodes = compute_barcode_shapes(&complex, &vec![3, 4, 5], 2);
    assert_eq!(barcodes.len(), 3);
    assert_eq!(barcodes[0].bars.len(), 3);
    // H1: the loop closed by edge 1-2 is filled by the triangle
    assert_eq!(barcodes[1].bars, vec![BarShape { birth: Some(5), death: Some(6) }]);
    assert_eq!(barcodes[1].bars.iter().filter(|b| b.death.is_none()).count(), 0);
    // H2: the triangle kills a loop, so it starts no feature
    assert!(barcodes[2].bars.is_empty());
}

#[test]
fn merges_follow_the_edge_order() {
    // a square 0-1-2-3 and then its diagonal
    let edges = vec![(0, 1), (2, 3), (1, 2), (3, 0), (0, 2)];
    let (merged, roots) = merge_components(4, &edges);
    assert_eq!(merged, vec![0, 1, 2]);
    assert_eq!(roots.len(), 1);

    let (merged, roots) = merge_components(5, &vec![(0, 1), (1, 0), (3, 4)]);
    assert_eq!(merged, vec![0, 2]);
    assert_eq!(roots.len(), 3);

    let (merged, roots) = merge_components(2, &vec![]);
    assert!(merged.is_empty());
    assert_eq!(roots.len(), 2);
}

#[test]
fn isolated_vertex_stays_essential() {
    let complex = FiltrationOrder {
        simplices: vec![vec![0], vec![1], vec![2], vec![0, 1]],
        num_vertices: 3,
    };
    let barcodes = compute_barcode_shapes(&complex, &vec![3], 0);
    assert_eq!(barcodes.len(), 1);
    assert_eq!(
        barcodes[0].bars,
        vec![
            BarShape { birth: None, death: Some(3) },
            BarShape { birth: None, death: None },
            BarShape { birth: None, death: None },
        ]
    );
}

#[test]
fn square_loop_is_born_and_killed_in_order() {
    // a square 0-1-2-3 whose loop is closed by 3-0 and filled by two triangles through
    // the diagonal 0-2: the first triangle kills the loop closed by the diagonal, the
    // second the square loop
    let complex = FiltrationOrder {
        simplices: vec![
            vec![0],
            vec![1],
            vec![2],
            vec![3],
            vec![0, 1],
            vec![1, 2],
            vec![2, 3],
            vec![0, 3],
            vec![0, 2],
            vec![0, 1, 2],
            vec![0, 2, 3],
        ],
        num_vertices: 4,
    };
    let barcodes = compute_barcode_shapes(&complex, &vec![4, 5, 6, 7, 8], 2);
    assert_eq!(
        barcodes[1].bars,
        vec![
            BarShape { birth: Some(7), death: Some(10) },
            BarShape { birth: Some(8), death: Some(9) },
        ]
    );
    assert!(barcodes[2].bars.is_empty());
}

#[test]
fn loop_count_is_edges_less_rank() {
    // a square 0-1-2-3 with no triangle: four edges, boundary rank three, one loop
    let complex = FiltrationOrder {
        simplices: vec![
            vec![0],
            vec![1],
            vec![2],
            vec![3],
            vec![0, 1],
            vec![1, 2],
            vec![2, 3],
            vec![0, 3],
        ],
        num_vertices: 4,
    };
    let rank = BoundaryMatrix::from_complex(&complex, 1).rank();
    assert_eq!(rank, 3);
    let barcodes = compute_barcode_shapes(&complex, &vec![4, 5, 6, 7], 1);
    assert_eq!(barcodes[1].bars.len() + rank, 4);
    assert!(barcodes[1].bars.iter().all(|b| b.death.is_none()));
}

#[test]
fn one_endless_bar_per_component() {
    // two separate edges 0-1 and 2-3 and a lone vertex 4: three components
    let complex = FiltrationOrder {
        simplices: vec![vec![0], vec![1], vec![2], vec![3], vec![4], vec![0, 1], vec![2, 3]],
        num_vertices: 5,
    };
    let barcodes = compute_barcode_shapes(&complex, &vec![5, 6], 0);
    assert_eq!(barcodes[0].bars.len(), 5);
    let essential = barcodes[0].bars.iter().filter(|b| b.death.is_none()).count();
    assert_eq!(essential, 3);
}
