use persistent_agent::bottleneck_matching;

#[test]
fn optimal_matching_beats_greedy_order() {
    // diagrams {(2,100),(5,100)} and {(3,100),(0,100)}: cost values
    // 1, 2, 5, 47.5, 48.5, 49, 50 have ranks 0..7
    let pr = vec![vec![0, 1], vec![1, 2]];
    let ra = vec![5, 3];
    let rb = vec![4, 6];
    let m = bottleneck_matching(&pr, &ra, &rb);
    assert_eq!(m.rank, 1);
    assert_eq!(m.assignment, vec![Some(1), Some(0)]);
}

#[test]
fn diagonal_is_used_when_cheaper() {
    // one point each, far apart, both close to the diagonal
    let m = bottleneck_matching(&vec![vec![9]], &vec![1], &vec![2]);
    assert_eq!(m.rank, 2);
    assert_eq!(m.assignment, vec![None]);

    // three points against one: two must go to the diagonal
    let m = bottleneck_matching(&vec![vec![0], vec![1], vec![2]], &vec![7, 3, 4], &vec![5]);
    assert_eq!(m.assignment, vec![Some(0), None, None]);
    assert_eq!(m.rank, 4);
}

#[test]
fn empty_diagrams() {
    let m = bottleneck_matching(&vec![], &vec![], &vec![3, 1]);
    assert!(m.assignment.is_empty());
    assert_eq!(m.rank, 3);
    let m = bottleneck_matching(&vec![vec![], vec![]], &vec![2, 0], &vec![]);
    assert_eq!(m.assignment, vec![None, None]);
    assert_eq!(m.rank, 2);
}

#[test]
fn test_persistence_diagram_bottleneck() {
    // diagrams {(0, 2), (0, inf)} and {(0, 2.1), (0, inf)}: the distinct costs in order
    // are 0 (the two essential points), 0.1, 1, 1.05 and infinity
    let values = [0.0, 0.1, 1.0, 1.05, f64::INFINITY];
    let pr = vec![vec![1, 4], vec![4, 0]];
    let ra = vec![2, 4];
    let rb = vec![3, 4];
    let m = bottleneck_matching(&pr, &ra, &rb);
    let dist = f64::max(0.0, values[m.rank as usize]);
    assert!(dist >= 0.0);
    assert!(dist < 1.0); // Should be small since diagrams are similar
    assert_eq!(m.rank, 1);
}

#[test]
fn swapping_the_diagrams_keeps_the_rank() {
    // three points against one, and the same read from the other side
    let m = bottleneck_matching(&vec![vec![0], vec![1], vec![2]], &vec![7, 3, 4], &vec![5]);
    let t = bottleneck_matching(&vec![vec![0, 1, 2]], &vec![5], &vec![7, 3, 4]);
    assert_eq!(m.rank, 4);
    assert_eq!(t.rank, 4);
    assert_eq!(t.assignment, vec![Some(0)]);
}

#[test]
fn a_diagram_against_itself_has_rank_zero() {
    let m = bottleneck_matching(&vec![vec![0, 3], vec![2, 0]], &vec![5, 1], &vec![5, 1]);
    assert_eq!(m.rank, 0);
    assert_eq!(m.assignment, vec![Some(0), Some(1)]);
}
