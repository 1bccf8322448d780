use persistent_agent::{combinations, VietorisRips};

#[test]
fn combinations_in_lexicographic_order() {
    let c = combinations(&[0, 1, 2, 3], 2);
    assert_eq!(
        c,
        vec![vec![0, 1], vec![0, 2], vec![0, 3], vec![1, 2], vec![1, 3], vec![2, 3]]
    );
    let c = combinations(&[5, 7, 9], 3);
    assert_eq!(c, vec![vec![5, 7, 9]]);
}

#[test]
fn combinations_edge_cases() {
    assert_eq!(combinations(&[1, 2], 0), vec![Vec::<usize>::new()]);
    assert_eq!(combinations(&[], 0), vec![Vec::<usize>::new()]);
    assert!(combinations(&[1, 2], 3).is_empty());
    assert_eq!(combinations(&[4, 4], 1), vec![vec![4], vec![4]]);
}

#[test]
fn combinations_count_is_binomial() {
    let data: Vec<usize> = (0..7).collect();
    assert_eq!(combinations(&data, 3).len(), 35);
    assert_eq!(combinations(&data, 1).len(), 7);
    assert_eq!(combinations(&data, 7).len(), 1);
}

#[test]
fn test_vietoris_rips_triangle() {
    // 3 vertices + 3 edges + 1 triangle = 7 simplices
    let simplices = VietorisRips::simplices(3, 2);
    assert_eq!(simplices.len(), 7);
    assert_eq!(
        simplices,
        vec![vec![0], vec![1], vec![2], vec![0, 1], vec![0, 2], vec![1, 2], vec![0, 1, 2]]
    );
}

#[test]
fn rips_stops_at_max_dim() {
    let s0 = VietorisRips::simplices(3, 0);
    assert_eq!(s0, vec![vec![0], vec![1], vec![2]]);
    assert_eq!(VietorisRips::simplices(2, 0).len(), 2);
    let s1 = VietorisRips::simplices(3, 1);
    assert_eq!(s1.len(), 6);
    let s3 = VietorisRips::simplices(4, 3);
    assert_eq!(s3.len(), 4 + 6 + 4 + 1);
    assert!(VietorisRips::simplices(0, 2).is_empty());
}
